use implementation::checking::comparison::Comparison;
use implementation::conflict_resolving::IntAtomic;
use implementation::constraints::posting::ConstraintTag;
use implementation::predicates::{DomainId, Predicate};
use implementation::proof_processing::conflicts::{
    conflict_inference, dual_bound_stage, order_inferences, ConflictReason,
};
use implementation::proof_processing::conversion::{
    convert_proof_atomics_to_predicates, ProofProcessError,
};
use implementation::proof_processing::output::{Conclusion, Deduction, Inference, Step};
use implementation::proof_processing::scaffold::{ScaffoldAction, ScaffoldReader};
use implementation::proof_processing::stack::{
    DeductionStack, InferenceCode, PostedDeduction, PropagatorHandle,
};
use implementation::proof_processing::variables::Variables;

fn int_atomic(name: &str, comparison: Comparison, value: i32) -> IntAtomic {
    IntAtomic {
        name: name.to_string(),
        comparison,
        value,
    }
}

fn model() -> Variables {
    let mut variables = Variables::new();
    assert!(variables.add_variable("x1".to_string(), DomainId { id: 1 }));
    assert!(variables.add_variable("x2".to_string(), DomainId { id: 2 }));
    variables
}

fn deduction(id: u32, premises: Vec<IntAtomic>) -> Option<Step> {
    Some(Step::Deduction(Deduction {
        constraint_id: id,
        premises,
        sequence: vec![],
    }))
}

#[test]
fn premises_convert_in_order() {
    let variables = model();
    let atomics = vec![
        int_atomic("x2", Comparison::Equal, 3),
        int_atomic("x1", Comparison::LessEqual, 9),
    ];
    assert_eq!(
        convert_proof_atomics_to_predicates(&variables, &atomics),
        Ok(vec![
            Predicate::equal(DomainId { id: 2 }, 3),
            Predicate::upper_bound(DomainId { id: 1 }, 9)
        ])
    );
}

#[test]
fn first_undefined_premise_is_the_error() {
    let variables = model();
    let atomics = vec![
        int_atomic("x1", Comparison::Equal, 3),
        int_atomic("a", Comparison::Equal, 1),
        int_atomic("b", Comparison::Equal, 1),
    ];
    assert_eq!(
        convert_proof_atomics_to_predicates(&variables, &atomics),
        Err(ProofProcessError::UndefinedVariable("a".to_string()))
    );
}

#[test]
fn deductions_keep_the_ids_of_the_scaffold() {
    let variables = model();
    let mut reader = ScaffoldReader::new();
    let action = reader.next_action(&variables, deduction(1, vec![int_atomic("x1", Comparison::LessEqual, 9)]));
    assert_eq!(
        action,
        Ok(ScaffoldAction::Post {
            tag: ConstraintTag { id: 1 },
            nogood: vec![Predicate::upper_bound(DomainId { id: 1 }, 9)],
        })
    );
    // Tags 2 to 4 go to inferences of the processed proof; the next deduction is 5.
    let action = reader.next_action(&variables, deduction(5, vec![]));
    assert_eq!(
        action,
        Ok(ScaffoldAction::Post {
            tag: ConstraintTag { id: 5 },
            nogood: vec![],
        })
    );
    assert_eq!(reader.tags.new_constraint_tag(), ConstraintTag { id: 6 });
}

#[test]
fn inferences_of_the_scaffold_are_skipped() {
    let variables = model();
    let mut reader = ScaffoldReader::new();
    let step = Step::Inference(Inference {
        constraint_id: 1,
        premises: vec![],
        consequent: None,
        generated_by: None,
        label: None,
    });
    assert_eq!(reader.next_action(&variables, Some(step)), Ok(ScaffoldAction::Skip));
    assert_eq!(reader.tags.new_constraint_tag(), ConstraintTag { id: 1 });
}

#[test]
fn scaffold_without_conclusion_is_refused() {
    let variables = model();
    let mut reader = ScaffoldReader::new();
    assert_eq!(
        reader.next_action(&variables, None),
        Err(ProofProcessError::MissingConclusion)
    );
}

#[test]
fn unsat_conclusion_that_propagation_did_not_reach_is_refused() {
    let variables = model();
    let mut reader = ScaffoldReader::new();
    assert_eq!(
        reader.next_action(&variables, Some(Step::Conclusion(Conclusion::Unsat))),
        Err(ProofProcessError::DeductionsDoNotConflict)
    );
}

#[test]
fn dual_bound_conclusion_is_handed_on() {
    let variables = model();
    let mut reader = ScaffoldReader::new();
    let bound = int_atomic("x1", Comparison::GreaterEqual, 10);
    assert_eq!(
        reader.next_action(&variables, Some(Step::Conclusion(Conclusion::DualBound(bound.clone())))),
        Ok(ScaffoldAction::DualBound(bound))
    );
}

#[test]
fn deduction_over_unknown_variable_is_refused() {
    let variables = model();
    let mut reader = ScaffoldReader::new();
    assert_eq!(
        reader.next_action(&variables, deduction(1, vec![int_atomic("y", Comparison::Equal, 0)])),
        Err(ProofProcessError::UndefinedVariable("y".to_string()))
    );
}

#[test]
fn root_conflict_takes_the_first_tag() {
    let mut reader = ScaffoldReader::new();
    assert_eq!(reader.root_conflict(), ConstraintTag { id: 1 });
    assert_eq!(reader.stack.len(), 2);
}

fn stack_with_deduction_at(id: u32) -> DeductionStack {
    let mut stack = DeductionStack::new();
    stack.insert_posted(
        ConstraintTag { id },
        vec![Predicate::upper_bound(DomainId { id: 1 }, 9)],
        PropagatorHandle { id: 0 },
    );
    stack
}

#[test]
fn inserted_deductions_start_unmarked() {
    let stack = stack_with_deduction_at(2);
    assert_eq!(stack.len(), 3);
    assert!(matches!(stack.get(ConstraintTag { id: 1 }), Some(None)));
    assert_eq!(
        stack.get(ConstraintTag { id: 2 }),
        Some(&Some(PostedDeduction {
            predicates: vec![Predicate::upper_bound(DomainId { id: 1 }, 9)],
            handle: PropagatorHandle { id: 0 },
            marked: false,
        }))
    );
}

#[test]
fn propagator_conflict_is_justified_by_its_conjunction() {
    let variables = model();
    let mut stack = stack_with_deduction_at(2);
    let conjunction = vec![
        Predicate::upper_bound(DomainId { id: 1 }, 9),
        Predicate::lower_bound(DomainId { id: 2 }, 4),
    ];
    let conflict = ConflictReason::Propagator {
        conjunction: conjunction.clone(),
        inference_code: InferenceCode {
            tag: ConstraintTag { id: 2 },
            label: "nogood".to_string(),
        },
    };
    let (inference, to_explain) = conflict_inference(&variables, &mut stack, conflict, 7);
    assert_eq!(
        inference,
        Inference {
            constraint_id: 7,
            premises: vec![
                int_atomic("x1", Comparison::LessEqual, 9),
                int_atomic("x2", Comparison::GreaterEqual, 4)
            ],
            consequent: None,
            generated_by: Some(2),
            label: Some("nogood".to_string()),
        }
    );
    assert_eq!(to_explain, conjunction);
    assert!(matches!(stack.get(ConstraintTag { id: 2 }), Some(Some(d)) if d.marked));
}

#[test]
fn empty_domain_is_justified_by_the_trigger() {
    let variables = model();
    let mut stack = stack_with_deduction_at(2);
    let conflict = ConflictReason::EmptyDomain {
        reason: vec![Predicate::equal(DomainId { id: 2 }, 10)],
        trigger_predicate: Predicate::lower_bound(DomainId { id: 1 }, 10),
        trigger_inference_code: InferenceCode {
            tag: ConstraintTag { id: 1 },
            label: "binary_equals".to_string(),
        },
    };
    let (inference, to_explain) = conflict_inference(&variables, &mut stack, conflict, 3);
    assert_eq!(
        inference,
        Inference {
            constraint_id: 3,
            premises: vec![int_atomic("x2", Comparison::Equal, 10)],
            consequent: Some(int_atomic("x1", Comparison::GreaterEqual, 10)),
            generated_by: Some(1),
            label: Some("binary_equals".to_string()),
        }
    );
    assert_eq!(
        to_explain,
        vec![
            Predicate::equal(DomainId { id: 2 }, 10),
            Predicate::upper_bound(DomainId { id: 1 }, 9)
        ]
    );
    // Tag 1 belongs to a model constraint, not to a deduction: nothing is marked.
    assert!(matches!(stack.get(ConstraintTag { id: 2 }), Some(Some(d)) if !d.marked));
}

fn labelled(id: u32) -> Inference {
    Inference {
        constraint_id: id,
        premises: vec![],
        consequent: None,
        generated_by: None,
        label: Some("initial_domain".to_string()),
    }
}

#[test]
fn inferences_are_reversed_without_tombstones() {
    let collected = vec![Some(labelled(1)), None, Some(labelled(2)), Some(labelled(3)), None];
    assert_eq!(
        order_inferences(collected),
        vec![labelled(3), labelled(2), labelled(1)]
    );
    assert_eq!(order_inferences(vec![None, None]), vec![]);
}

#[test]
fn dual_bound_stage_assumes_the_negated_bound() {
    // x1 in [10, 20] and the bound [x1 >= 10] follows from the initial domain.
    let variables = model();
    let initial = Inference {
        constraint_id: 2,
        premises: vec![],
        consequent: Some(int_atomic("x1", Comparison::GreaterEqual, 10)),
        generated_by: None,
        label: Some("initial_domain".to_string()),
    };
    let stage = dual_bound_stage(
        &variables,
        Predicate::lower_bound(DomainId { id: 1 }, 10),
        vec![initial.clone()],
        3,
    );
    assert_eq!(stage.constraint_id, 3);
    assert_eq!(stage.inferences, vec![initial]);
    assert_eq!(stage.premises, vec![int_atomic("x1", Comparison::LessEqual, 9)]);
}
