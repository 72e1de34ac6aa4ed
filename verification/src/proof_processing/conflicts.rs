use vstd::prelude::*;

use super::conversion::{
    atomic_parts_of,
    convert_predicate_to_proof_atomic,
    convert_predicates_to_proof_atomic,
};
use super::output::{Inference, ProofStage};
use super::stack::{mark_stack_entry, marked_entry, DeductionStack, InferenceCode};
use super::variables::Variables;
use crate::conflict_resolving::atomic::IntAtomic;
use crate::predicates::{Predicate, PredicateType};

verus! {

/// A conflict that the solver reports, with what its justification needs.
#[derive(Debug, Clone)]
pub enum ConflictReason {
    /// A propagator found its constraint violated by the conjunction.
    Propagator { conjunction: Vec<Predicate>, inference_code: InferenceCode },
    /// Propagation emptied a domain: the inference code set the trigger predicate because of
    /// the reason, and the trigger predicate leaves its domain without values.
    EmptyDomain {
        reason: Vec<Predicate>,
        trigger_predicate: Predicate,
        trigger_inference_code: InferenceCode,
    },
}

impl ConflictReason {
    /// The inference code of the constraint behind the conflict.
    pub open spec fn code(self) -> InferenceCode {
        match self {
            ConflictReason::Propagator { inference_code, .. } => inference_code,
            ConflictReason::EmptyDomain { trigger_inference_code, .. } => trigger_inference_code,
        }
    }

    /// The premises of the inference that justifies the conflict.
    pub open spec fn premises(self) -> Seq<Predicate> {
        match self {
            ConflictReason::Propagator { conjunction, .. } => conjunction@,
            ConflictReason::EmptyDomain { reason, .. } => reason@,
        }
    }

    /// Every predicate of the conflict is over a named variable, and the trigger predicate
    /// can be negated.
    pub open spec fn is_named_in(self, variables: Variables) -> bool {
        &&& forall|i: int|
            0 <= i < self.premises().len() ==> variables.name_of(
                (#[trigger] self.premises()[i]).domain,
            ) is Some
        &&& self matches ConflictReason::EmptyDomain { trigger_predicate, .. } ==> {
            &&& variables.name_of(trigger_predicate.domain) is Some
            &&& trigger_predicate.predicate_type == PredicateType::LowerBound
                ==> trigger_predicate.rhs > i32::MIN
            &&& trigger_predicate.predicate_type == PredicateType::UpperBound
                ==> trigger_predicate.rhs < i32::MAX
        }
    }
}

/// The atomics state the predicates, one for one and in order.
pub open spec fn states_predicates(
    variables: Variables,
    atomics: Seq<IntAtomic>,
    predicates: Seq<Predicate>,
) -> bool {
    &&& atomics.len() == predicates.len()
    &&& forall|i: int|
        0 <= i < predicates.len() ==> ((#[trigger] atomics[i]).name@, atomics[i].comparison, atomics[i].value)
            == atomic_parts_of(variables, predicates[i])
}

/// The first inference that justifies a conflict, and the predicates that are left to
/// explain. The deduction behind the conflict, if the conflict comes from one, is marked as
/// used.
///
/// A propagator conflict is justified by an inference from its conjunction to false, and
/// its conjunction is left to explain. An emptied domain is justified by the inference from
/// the reason to the trigger predicate; the reason and the negated trigger predicate are
/// left to explain.
pub fn conflict_inference(
    variables: &Variables,
    stack: &mut DeductionStack,
    conflict: ConflictReason,
    constraint_id: u32,
) -> (r: (Inference, Vec<Predicate>))
    requires
        variables.wf(),
        conflict.is_named_in(*variables),
        conflict.code().tag.id < old(stack).view().len(),
    ensures
        r.0.constraint_id == constraint_id,
        r.0.generated_by == Some(conflict.code().tag.id),
        r.0.label == Some(conflict.code().label),
        states_predicates(*variables, r.0.premises@, conflict.premises()),
        final(stack).view() == old(stack).view().update(
            conflict.code().tag.id as int,
            marked_entry(old(stack).view()[conflict.code().tag.id as int]),
        ),
        match conflict {
            ConflictReason::Propagator { conjunction, .. } => r.0.consequent is None && r.1@
                == conjunction@,
            ConflictReason::EmptyDomain { reason, trigger_predicate, .. } => {
                &&& r.0.consequent matches Some(c) && (c.name@, c.comparison, c.value)
                    == atomic_parts_of(*variables, trigger_predicate)
                &&& r.1@.len() == reason@.len() + 1
                &&& r.1@.drop_last() == reason@
                &&& r.1@.last() == trigger_predicate.negation()
            },
        },
{
    match conflict {
        ConflictReason::Propagator { conjunction, inference_code } => {
            let premises = convert_predicates_to_proof_atomic(variables, &conjunction);
            mark_stack_entry(stack, &inference_code);
            let InferenceCode { tag, label } = inference_code;
            let inference = Inference {
                constraint_id,
                premises,
                consequent: None,
                generated_by: Some(tag.id),
                label: Some(label),
            };
            (inference, conjunction)
        },
        ConflictReason::EmptyDomain { reason, trigger_predicate, trigger_inference_code } => {
            let premises = convert_predicates_to_proof_atomic(variables, &reason);
            let consequent = convert_predicate_to_proof_atomic(variables, trigger_predicate);
            mark_stack_entry(stack, &trigger_inference_code);
            let InferenceCode { tag, label } = trigger_inference_code;
            let inference = Inference {
                constraint_id,
                premises,
                consequent: Some(consequent),
                generated_by: Some(tag.id),
                label: Some(label),
            };
            let mut to_explain = reason;
            let ghost before = to_explain@;
            to_explain.push(trigger_predicate.negate());
            proof {
                assert(to_explain@.drop_last() =~= before);
            }
            (inference, to_explain)
        },
    }
}

/// The inferences in the order from the assumptions to the conflict, without tombstones.
pub open spec fn present_reversed(inferences: Seq<Option<Inference>>) -> Seq<Inference>
    decreases inferences.len(),
{
    if inferences.len() == 0 {
        Seq::empty()
    } else {
        let rest = present_reversed(inferences.drop_last());
        match inferences.last() {
            Some(i) => seq![i] + rest,
            None => rest,
        }
    }
}

/// The inferences of a conflict are collected from the conflict towards the assumptions,
/// with `None` as a tombstone where an inference was moved; the proof lists them the other
/// way round, without the tombstones.
pub fn order_inferences(inferences: Vec<Option<Inference>>) -> (ordered: Vec<Inference>)
    ensures
        ordered@ == present_reversed(inferences@),
{
    let ghost all = inferences@;
    let mut rest = inferences;
    let mut ordered: Vec<Inference> = Vec::new();
    while rest.len() > 0
        invariant
            rest@.len() <= all.len(),
            rest@ == all.subrange(0, rest@.len() as int),
            ordered@ + present_reversed(rest@) == present_reversed(all),
        decreases rest@.len(),
    {
        let ghost before = rest@;
        let ghost done = ordered@;
        let last = rest.pop();
        proof {
            assert(rest@ =~= before.drop_last());
            assert(rest@ == all.subrange(0, rest@.len() as int));
        }
        match last {
            Some(Some(inference)) => {
                ordered.push(inference);
                proof {
                    assert(ordered@ + present_reversed(rest@) =~= done + present_reversed(before));
                }
            },
            _ => {
                proof {
                    assert(ordered@ + present_reversed(rest@) =~= done + present_reversed(before));
                }
            },
        }
    }
    proof {
        assert(ordered@ =~= ordered@ + present_reversed(rest@));
    }
    ordered
}

/// The proof stage of a dual bound `[predicate]`: the deduction that `!predicate` cannot
/// hold, supported by the inferences that explain the bound.
pub fn dual_bound_stage(
    variables: &Variables,
    predicate: Predicate,
    inferences: Vec<Inference>,
    constraint_id: u32,
) -> (stage: ProofStage)
    requires
        variables.wf(),
        variables.name_of(predicate.domain) is Some,
        predicate.predicate_type == PredicateType::LowerBound ==> predicate.rhs > i32::MIN,
        predicate.predicate_type == PredicateType::UpperBound ==> predicate.rhs < i32::MAX,
    ensures
        stage.constraint_id == constraint_id,
        stage.inferences@ == inferences@,
        stage.premises@.len() == 1,
        (stage.premises@[0].name@, stage.premises@[0].comparison, stage.premises@[0].value)
            == atomic_parts_of(*variables, predicate.negation()),
{
    let negated = predicate.negate();
    let premise = convert_predicate_to_proof_atomic(variables, negated);
    let mut premises: Vec<IntAtomic> = Vec::new();
    premises.push(premise);
    ProofStage { constraint_id, inferences, premises }
}

} // verus!
