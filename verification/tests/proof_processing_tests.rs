use implementation::checking::comparison::Comparison;
use implementation::conflict_resolving::IntAtomic;
use implementation::constraints::posting::ConstraintTag;
use implementation::predicates::{DomainId, Predicate};
use implementation::proof_processing::conversion::{
    convert_predicate_to_proof_atomic, convert_predicates_to_proof_atomic,
    convert_proof_atomic_to_predicate, ProofProcessError,
};
use implementation::proof_processing::output::{
    write_proof, Conclusion, Deduction, Inference, ProofStage, Step,
};
use implementation::proof_processing::stack::{
    justify_dual_bound, mark_conflicting_deduction, mark_stack_entry, ConstraintTagGenerator,
    DeductionStack, DualBoundJustification, InferenceCode, PostedDeduction, PropagatorHandle,
};
use implementation::proof_processing::variables::Variables;

fn int_atomic(name: &str, comparison: Comparison, value: i32) -> IntAtomic {
    IntAtomic {
        name: name.to_string(),
        comparison,
        value,
    }
}

fn model() -> Variables {
    let mut variables = Variables::new();
    assert!(variables.add_variable("x1".to_string(), DomainId { id: 1 }));
    assert!(variables.add_variable("x2".to_string(), DomainId { id: 2 }));
    variables
}

fn posted(handle: u32) -> PostedDeduction {
    PostedDeduction {
        predicates: vec![Predicate::upper_bound(DomainId { id: 1 }, 9)],
        handle: PropagatorHandle { id: handle },
        marked: false,
    }
}

/// A stack with a deduction at tags 1 and 3 and nothing at tags 0 and 2.
fn stack() -> DeductionStack {
    let mut stack = DeductionStack::new();
    stack.accomodate(ConstraintTag { id: 3 });
    stack.set(ConstraintTag { id: 1 }, posted(0));
    stack.set(ConstraintTag { id: 3 }, posted(1));
    stack
}

fn is_marked(stack: &DeductionStack, id: u32) -> bool {
    match stack.get(ConstraintTag { id }) {
        Some(Some(d)) => d.marked,
        _ => false,
    }
}

#[test]
fn variables_map_names_and_domains_both_ways() {
    let variables = model();
    assert_eq!(variables.get_domain_by_name(&"x2".to_string()), Some(DomainId { id: 2 }));
    assert_eq!(variables.get_domain_by_name(&"x3".to_string()), None);
    assert_eq!(variables.get_name_for_domain(DomainId { id: 1 }), Some(&"x1".to_string()));
    assert_eq!(variables.get_name_for_domain(DomainId { id: 7 }), None);
}

#[test]
fn variables_refuse_a_second_entry_for_a_name_or_domain() {
    let mut variables = model();
    assert!(!variables.add_variable("x1".to_string(), DomainId { id: 5 }));
    assert!(!variables.add_variable("y".to_string(), DomainId { id: 2 }));
    assert_eq!(variables.get_domain_by_name(&"y".to_string()), None);
    assert_eq!(variables.get_domain_by_name(&"x1".to_string()), Some(DomainId { id: 1 }));
}

#[test]
fn predicates_convert_to_atomics() {
    let variables = model();
    let d = DomainId { id: 1 };
    assert_eq!(
        convert_predicate_to_proof_atomic(&variables, Predicate::lower_bound(d, 10)),
        int_atomic("x1", Comparison::GreaterEqual, 10)
    );
    assert_eq!(
        convert_predicate_to_proof_atomic(&variables, Predicate::upper_bound(d, 9)),
        int_atomic("x1", Comparison::LessEqual, 9)
    );
    assert_eq!(
        convert_predicate_to_proof_atomic(&variables, Predicate::not_equal(d, -3)),
        int_atomic("x1", Comparison::NotEqual, -3)
    );
    assert_eq!(
        convert_predicate_to_proof_atomic(&variables, Predicate::equal(DomainId { id: 2 }, 10)),
        int_atomic("x2", Comparison::Equal, 10)
    );
}

#[test]
fn predicate_lists_convert_in_order() {
    let variables = model();
    let predicates = vec![
        Predicate::equal(DomainId { id: 2 }, 4),
        Predicate::lower_bound(DomainId { id: 1 }, 0),
    ];
    assert_eq!(
        convert_predicates_to_proof_atomic(&variables, &predicates),
        vec![
            int_atomic("x2", Comparison::Equal, 4),
            int_atomic("x1", Comparison::GreaterEqual, 0)
        ]
    );
}

#[test]
fn atomics_convert_to_predicates() {
    let variables = model();
    assert_eq!(
        convert_proof_atomic_to_predicate(&variables, &int_atomic("x1", Comparison::LessEqual, 9)),
        Ok(Predicate::upper_bound(DomainId { id: 1 }, 9))
    );
    assert_eq!(
        convert_proof_atomic_to_predicate(&variables, &int_atomic("x2", Comparison::NotEqual, 1)),
        Ok(Predicate::not_equal(DomainId { id: 2 }, 1))
    );
}

#[test]
fn atomic_over_unknown_variable_is_an_error() {
    let variables = model();
    assert_eq!(
        convert_proof_atomic_to_predicate(&variables, &int_atomic("z", Comparison::Equal, 1)),
        Err(ProofProcessError::UndefinedVariable("z".to_string()))
    );
}

#[test]
fn conversion_round_trip() {
    let variables = model();
    let p = Predicate::lower_bound(DomainId { id: 2 }, -7);
    let a = convert_predicate_to_proof_atomic(&variables, p);
    assert_eq!(convert_proof_atomic_to_predicate(&variables, &a), Ok(p));
}

#[test]
fn stack_accomodates_pops_and_gets() {
    let mut stack = stack();
    assert_eq!(stack.len(), 4);
    assert!(matches!(stack.get(ConstraintTag { id: 2 }), Some(None)));
    assert!(stack.get(ConstraintTag { id: 4 }).is_none());
    stack.accomodate(ConstraintTag { id: 1 });
    assert_eq!(stack.len(), 4);
    let top = stack.pop();
    assert_eq!(top, Some(Some(posted(1))));
    assert_eq!(stack.len(), 3);
    assert_eq!(stack.pop(), Some(None));
    assert_eq!(stack.pop(), Some(Some(posted(0))));
    assert_eq!(stack.pop(), Some(None));
    assert_eq!(stack.pop(), None);
}

#[test]
fn marking_entries() {
    let mut stack = stack();
    let code = InferenceCode {
        tag: ConstraintTag { id: 3 },
        label: "nogood".to_string(),
    };
    mark_stack_entry(&mut stack, &code);
    assert!(is_marked(&stack, 3));
    assert!(!is_marked(&stack, 1));

    // Marking a tag without deduction leaves the stack as it is.
    let root = InferenceCode {
        tag: ConstraintTag { id: 2 },
        label: "binary_equals".to_string(),
    };
    mark_stack_entry(&mut stack, &root);
    assert!(matches!(stack.get(ConstraintTag { id: 2 }), Some(None)));

    mark_conflicting_deduction(&mut stack, ConstraintTag { id: 1 });
    assert!(is_marked(&stack, 1));
}

#[test]
fn dual_bound_is_initial_bound() {
    // x1 in [10, 20], and the proof concludes [x1 >= 10].
    let mut stack = stack();
    let r = justify_dual_bound(&mut stack, Some(true), true, None);
    assert_eq!(r, Ok(DualBoundJustification::InitialBound));
    assert!(!is_marked(&stack, 1) && !is_marked(&stack, 3));
}

#[test]
fn dual_bound_is_root_propagation() {
    // The bound is propagated by a model constraint (tag 2) and not by a deduction.
    let mut stack = stack();
    let r = justify_dual_bound(&mut stack, Some(true), false, Some(ConstraintTag { id: 2 }));
    assert_eq!(r, Ok(DualBoundJustification::RootPropagation));
    assert!(!is_marked(&stack, 1) && !is_marked(&stack, 3));
}

#[test]
fn dual_bound_propagated_by_a_deduction_marks_it() {
    let mut stack = stack();
    let r = justify_dual_bound(&mut stack, Some(true), false, Some(ConstraintTag { id: 3 }));
    assert_eq!(r, Ok(DualBoundJustification::MarkedDeduction));
    assert!(is_marked(&stack, 3));
    assert!(!is_marked(&stack, 1));
}

#[test]
fn dual_bound_that_does_not_hold_is_invalid() {
    let mut stack = stack();
    assert_eq!(
        justify_dual_bound(&mut stack, Some(false), true, None),
        Err(ProofProcessError::InvalidConclusion)
    );
    assert_eq!(
        justify_dual_bound(&mut stack, None, false, Some(ConstraintTag { id: 3 })),
        Err(ProofProcessError::InvalidConclusion)
    );
    assert!(!is_marked(&stack, 3));
}

#[test]
fn dual_bound_from_a_tag_outside_the_stack_is_invalid() {
    let mut stack = stack();
    assert_eq!(
        justify_dual_bound(&mut stack, Some(true), false, Some(ConstraintTag { id: 9 })),
        Err(ProofProcessError::InvalidConclusion)
    );
}

#[test]
fn constraint_tags_count_up_and_catch_up() {
    let mut tags = ConstraintTagGenerator::new();
    assert_eq!(tags.new_constraint_tag(), ConstraintTag { id: 1 });
    assert_eq!(tags.new_constraint_tag(), ConstraintTag { id: 2 });
    assert_eq!(tags.catch_up_to(5), ConstraintTag { id: 5 });
    assert_eq!(tags.new_constraint_tag(), ConstraintTag { id: 6 });
    assert_eq!(tags.catch_up_to(7), ConstraintTag { id: 7 });
}

fn inference(id: u32, consequent: Option<IntAtomic>, label: &str) -> Inference {
    Inference {
        constraint_id: id,
        premises: vec![],
        consequent,
        generated_by: None,
        label: Some(label.to_string()),
    }
}

#[test]
fn proof_is_written_last_stage_first() {
    // Stages are collected while trimming backwards: the last deduction comes first.
    let late = ProofStage {
        constraint_id: 5,
        inferences: vec![inference(6, None, "nogood")],
        premises: vec![],
    };
    let early = ProofStage {
        constraint_id: 3,
        inferences: vec![
            inference(2, Some(int_atomic("x1", Comparison::GreaterEqual, 10)), "initial_domain"),
            inference(4, None, "nogood"),
        ],
        premises: vec![int_atomic("x1", Comparison::LessEqual, 9)],
    };
    let steps = write_proof(vec![late.clone(), early.clone()], Conclusion::Unsat);
    let expected = vec![
        Step::Inference(early.inferences[0].clone()),
        Step::Inference(early.inferences[1].clone()),
        Step::Deduction(Deduction {
            constraint_id: 3,
            premises: early.premises.clone(),
            sequence: vec![2, 4],
        }),
        Step::Inference(late.inferences[0].clone()),
        Step::Deduction(Deduction {
            constraint_id: 5,
            premises: vec![],
            sequence: vec![6],
        }),
        Step::Conclusion(Conclusion::Unsat),
    ];
    assert_eq!(steps, expected);
}

#[test]
fn empty_proof_is_only_the_conclusion() {
    let bound = int_atomic("x1", Comparison::GreaterEqual, 10);
    let steps = write_proof(vec![], Conclusion::DualBound(bound.clone()));
    assert_eq!(steps, vec![Step::Conclusion(Conclusion::DualBound(bound))]);
}
