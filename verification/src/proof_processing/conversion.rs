use vstd::prelude::*;

use super::variables::Variables;
use crate::checking::comparison::Comparison;
use crate::conflict_resolving::atomic::IntAtomic;
use crate::predicates::{DomainId, Predicate, PredicateType};

verus! {

/// The errors of proof processing.
#[derive(Debug, Clone, PartialEq, Eq)]
pub enum ProofProcessError {
    /// The proof did not contain a conclusion step.
    MissingConclusion,
    /// An atomic refers to a variable that the model does not have.
    UndefinedVariable(String),
    /// The deduction with this constraint id does not lead to a contradiction.
    DeductionDoesNotConflict(u32),
    /// All deductions together do not propagate to a conflict.
    DeductionsDoNotConflict,
    /// The conclusion is not supported by any deduction.
    InvalidConclusion,
    /// The deduction with this constraint id is trivially inconsistent.
    TriviallyInconsistentDeduction(u32),
}

/// The comparison of the proof atomic that states a predicate of this type.
pub open spec fn comparison_for(predicate_type: PredicateType) -> Comparison {
    match predicate_type {
        PredicateType::LowerBound => Comparison::GreaterEqual,
        PredicateType::UpperBound => Comparison::LessEqual,
        PredicateType::NotEqual => Comparison::NotEqual,
        PredicateType::Equal => Comparison::Equal,
    }
}

/// The type of the predicate that states a proof atomic with this comparison.
pub open spec fn predicate_type_for(comparison: Comparison) -> PredicateType {
    match comparison {
        Comparison::GreaterEqual => PredicateType::LowerBound,
        Comparison::LessEqual => PredicateType::UpperBound,
        Comparison::NotEqual => PredicateType::NotEqual,
        Comparison::Equal => PredicateType::Equal,
    }
}

/// The proof atomic for a predicate over a named domain: its name, comparison and value.
pub open spec fn atomic_parts_of(variables: Variables, predicate: Predicate) -> (
    Seq<char>,
    Comparison,
    i32,
) {
    (
        variables.name_of(predicate.domain)->0,
        comparison_for(predicate.predicate_type),
        predicate.rhs,
    )
}

/// The predicate for a proof atomic, if its variable exists.
pub open spec fn predicate_of(
    variables: Variables,
    name: Seq<char>,
    comparison: Comparison,
    value: i32,
) -> Option<Predicate> {
    match variables.domain_of(name) {
        Some(d) => Some(
            Predicate { domain: d, predicate_type: predicate_type_for(comparison), rhs: value },
        ),
        None => None,
    }
}

/// Converting a predicate to a proof atomic and back gives the predicate.
pub proof fn lemma_predicate_round_trip(variables: Variables, predicate: Predicate)
    requires
        variables.wf(),
        variables.name_of(predicate.domain) is Some,
    ensures
        ({
            let (n, c, v) = atomic_parts_of(variables, predicate);
            predicate_of(variables, n, c, v) == Some(predicate)
        }),
{
    variables.lemma_names_and_domains_correspond();
}

/// Converting a proof atomic over a known variable to a predicate and back gives the
/// atomic.
pub proof fn lemma_atomic_round_trip(
    variables: Variables,
    name: Seq<char>,
    comparison: Comparison,
    value: i32,
)
    requires
        variables.wf(),
        variables.domain_of(name) is Some,
    ensures
        predicate_of(variables, name, comparison, value) is Some,
        atomic_parts_of(variables, predicate_of(variables, name, comparison, value)->0) == (
            name,
            comparison,
            value,
        ),
{
    variables.lemma_names_and_domains_correspond();
}

/// Converts a solver predicate to an atomic constraint of the proof.
pub fn convert_predicate_to_proof_atomic(variables: &Variables, predicate: Predicate) -> (atomic:
    IntAtomic)
    requires
        variables.wf(),
        variables.name_of(predicate.domain) is Some,
    ensures
        (atomic.name@, atomic.comparison, atomic.value) == atomic_parts_of(*variables, predicate),
{
    let name = match variables.get_name_for_domain(predicate.domain) {
        Some(n) => n.clone(),
        None => String::new(),
    };
    let comparison = match predicate.predicate_type {
        PredicateType::LowerBound => Comparison::GreaterEqual,
        PredicateType::UpperBound => Comparison::LessEqual,
        PredicateType::NotEqual => Comparison::NotEqual,
        PredicateType::Equal => Comparison::Equal,
    };
    IntAtomic { name, comparison, value: predicate.rhs }
}

/// Converts solver predicates to atomic constraints of the proof, in order.
pub fn convert_predicates_to_proof_atomic(variables: &Variables, predicates: &Vec<Predicate>) -> (atomics:
    Vec<IntAtomic>)
    requires
        variables.wf(),
        forall|i: int| 0 <= i < predicates@.len() ==> variables.name_of((#[trigger] predicates@[i]).domain) is Some,
    ensures
        atomics@.len() == predicates@.len(),
        forall|i: int|
            0 <= i < predicates@.len() ==> ((#[trigger] atomics@[i]).name@, atomics@[i].comparison, atomics@[i].value)
                == atomic_parts_of(*variables, predicates@[i]),
{
    let mut atomics: Vec<IntAtomic> = Vec::new();
    let mut i: usize = 0;
    while i < predicates.len()
        invariant
            0 <= i <= predicates@.len(),
            variables.wf(),
            forall|j: int| 0 <= j < predicates@.len() ==> variables.name_of((#[trigger] predicates@[j]).domain) is Some,
            atomics@.len() == i,
            forall|j: int|
                0 <= j < i ==> ((#[trigger] atomics@[j]).name@, atomics@[j].comparison, atomics@[j].value)
                    == atomic_parts_of(*variables, predicates@[j]),
        decreases predicates.len() - i,
    {
        let atomic = convert_predicate_to_proof_atomic(variables, predicates[i]);
        atomics.push(atomic);
        i = i + 1;
    }
    atomics
}

/// Converts an atomic constraint of the proof to a solver predicate; an atomic over a
/// variable that the model does not have is an error.
pub fn convert_proof_atomic_to_predicate(variables: &Variables, atomic: &IntAtomic) -> (r: Result<
    Predicate,
    ProofProcessError,
>)
    requires
        variables.wf(),
    ensures
        match predicate_of(*variables, atomic.name@, atomic.comparison, atomic.value) {
            Some(p) => r == Ok::<Predicate, ProofProcessError>(p),
            None => r matches Err(ProofProcessError::UndefinedVariable(n)) && n@ == atomic.name@,
        },
{
    let domain = match variables.get_domain_by_name(&atomic.name) {
        Some(d) => d,
        None => {
            return Err(ProofProcessError::UndefinedVariable(atomic.name.clone()));
        },
    };
    let predicate_type = match atomic.comparison {
        Comparison::GreaterEqual => PredicateType::LowerBound,
        Comparison::LessEqual => PredicateType::UpperBound,
        Comparison::Equal => PredicateType::Equal,
        Comparison::NotEqual => PredicateType::NotEqual,
    };
    Ok(Predicate { domain, predicate_type, rhs: atomic.value })
}


/// The atomic at index `i` refers to a variable that the model has.
pub open spec fn defined_at(variables: Variables, atomics: Seq<IntAtomic>, i: int) -> bool {
    variables.domain_of(atomics[i].name@) is Some
}

/// Every atomic refers to a variable that the model has.
pub open spec fn all_defined(variables: Variables, atomics: Seq<IntAtomic>) -> bool {
    forall|i: int| 0 <= i < atomics.len() ==> defined_at(variables, atomics, i)
}

/// The atomic at index `k` is the first one over a variable that the model does not have.
pub open spec fn first_undefined(variables: Variables, atomics: Seq<IntAtomic>, k: int) -> bool {
    &&& 0 <= k < atomics.len()
    &&& !defined_at(variables, atomics, k)
    &&& forall|j: int| 0 <= j < k ==> defined_at(variables, atomics, j)
}

/// The predicates of atomics over known variables, in order.
pub open spec fn converted(variables: Variables, atomics: Seq<IntAtomic>) -> Seq<Predicate> {
    Seq::new(
        atomics.len(),
        |i: int| predicate_of(variables, atomics[i].name@, atomics[i].comparison, atomics[i].value)->0,
    )
}

/// Converts the premises of a deduction to solver predicates, in order. The first atomic
/// over a variable that the model does not have is the error.
pub fn convert_proof_atomics_to_predicates(variables: &Variables, atomics: &Vec<IntAtomic>) -> (r:
    Result<Vec<Predicate>, ProofProcessError>)
    requires
        variables.wf(),
    ensures
        r is Ok <==> all_defined(*variables, atomics@),
        r matches Ok(predicates) ==> predicates@ == converted(*variables, atomics@),
        r matches Err(e) ==> exists|k: int|
            #[trigger] first_undefined(*variables, atomics@, k) && (e
                matches ProofProcessError::UndefinedVariable(n) && n@ == atomics@[k].name@),
{
    let mut predicates: Vec<Predicate> = Vec::new();
    let mut i: usize = 0;
    while i < atomics.len()
        invariant
            0 <= i <= atomics@.len(),
            variables.wf(),
            predicates@.len() == i,
            forall|j: int| 0 <= j < i ==> defined_at(*variables, atomics@, j),
            forall|j: int|
                0 <= j < i ==> #[trigger] predicates@[j] == converted(*variables, atomics@)[j],
        decreases atomics.len() - i,
    {
        match convert_proof_atomic_to_predicate(variables, &atomics[i]) {
            Ok(p) => {
                predicates.push(p);
            },
            Err(e) => {
                proof {
                    assert(first_undefined(*variables, atomics@, i as int));
                }
                return Err(e);
            },
        }
        i = i + 1;
    }
    proof {
        assert(predicates@ =~= converted(*variables, atomics@));
    }
    Ok(predicates)
}

} // verus!
