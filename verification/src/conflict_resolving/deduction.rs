use vstd::prelude::*;

use super::atomic::{Assignment, Atomic};
use crate::checking::inference::lemma_assumed_values;

verus! {

/// An inference used to support a deduction.
#[derive(Clone, Debug, PartialEq, Eq)]
pub struct SupportingInference {
    /// The premises of the inference.
    pub premises: Vec<Atomic>,
    /// The consequent of the inference.
    ///
    /// `None` represents the literal false: the premises imply false.
    pub consequent: Option<Atomic>,
}

/// What is known of the variables while a deduction is checked: `s(name, v)` tells whether
/// `name` can still take the value `v`.
pub type KnownValues = spec_fn(Seq<char>, int) -> bool;

/// Nothing is known yet: every variable can take every value.
pub open spec fn nothing_known() -> KnownValues {
    |n: Seq<char>, v: int| true
}

/// The values that remain once `a` is assumed.
pub open spec fn assume_atomic(s: KnownValues, a: Atomic) -> KnownValues {
    |n: Seq<char>, v: int| s(n, v) && (n == a.spec_identifier() ==> a.holds_for(v))
}

/// Whether every value that remains for the variable of `a` satisfies `a`.
pub open spec fn known_entails(s: KnownValues, a: Atomic) -> bool {
    forall|v: int| s(a.spec_identifier(), v) ==> a.holds_for(v)
}

/// Whether no value remains for `name`.
pub open spec fn known_empty(s: KnownValues, name: Seq<char>) -> bool {
    forall|v: int| !#[trigger] s(name, v)
}

/// Whether every premise of the inference is entailed.
pub open spec fn premises_entailed(s: KnownValues, inference: SupportingInference) -> bool {
    forall|j: int|
        0 <= j < inference.premises@.len() ==> known_entails(s, #[trigger] inference.premises@[j])
}

/// Assumes the premises from index `i` on, one at a time. The flag tells whether some
/// variable was left without a value.
pub open spec fn assume_premises_from(s: KnownValues, premises: Seq<Atomic>, i: int) -> (
    KnownValues,
    bool,
)
    decreases premises.len() - i,
{
    if i < 0 || i >= premises.len() {
        (s, false)
    } else {
        let next = assume_atomic(s, premises[i]);
        if known_empty(next, premises[i].spec_identifier()) {
            (next, true)
        } else {
            assume_premises_from(next, premises, i + 1)
        }
    }
}

/// Applies the inferences from index `i` on, in order. An inference whose premises are all
/// entailed contributes its consequent; the run succeeds once an applied inference has the
/// consequent false or leaves a variable without a value.
pub open spec fn propagate_inferences_from(
    s: KnownValues,
    inferences: Seq<SupportingInference>,
    i: int,
) -> bool
    decreases inferences.len() - i,
{
    if i < 0 || i >= inferences.len() {
        false
    } else if premises_entailed(s, inferences[i]) {
        match inferences[i].consequent {
            None => true,
            Some(c) => {
                let next = assume_atomic(s, c);
                if known_empty(next, c.spec_identifier()) {
                    true
                } else {
                    propagate_inferences_from(next, inferences, i + 1)
                }
            },
        }
    } else {
        propagate_inferences_from(s, inferences, i + 1)
    }
}

/// The deduction `premises -> false` follows from the inferences: either the premises
/// contradict each other, or applying the inferences in order after the premises reaches a
/// conflict.
pub open spec fn deduction_accepted(
    premises: Seq<Atomic>,
    inferences: Seq<SupportingInference>,
) -> bool {
    let (s, conflict) = assume_premises_from(nothing_known(), premises, 0);
    conflict || propagate_inferences_from(s, inferences, 0)
}

/// Whether the inference holds under the assignment, read as the clause
/// `premises -> consequent`.
pub open spec fn inference_holds(inference: SupportingInference, assignment: Assignment) -> bool {
    (forall|j: int|
        0 <= j < inference.premises@.len() ==> (#[trigger] inference.premises@[j]).holds(
            assignment,
        )) ==> match inference.consequent {
        None => false,
        Some(c) => c.holds(assignment),
    }
}

/// The assignment satisfies all premises together with all inferences.
pub open spec fn satisfies_all(
    premises: Seq<Atomic>,
    inferences: Seq<SupportingInference>,
    assignment: Assignment,
) -> bool {
    &&& forall|i: int| 0 <= i < premises.len() ==> (#[trigger] premises[i]).holds(assignment)
    &&& forall|i: int|
        0 <= i < inferences.len() ==> inference_holds(#[trigger] inferences[i], assignment)
}

/// No assignment satisfies all premises together with all inferences.
pub open spec fn deduction_refutes(
    premises: Seq<Atomic>,
    inferences: Seq<SupportingInference>,
) -> bool {
    forall|assignment: Assignment| !#[trigger] satisfies_all(premises, inferences, assignment)
}

/// The assignment gives every variable a value that is still known to be possible.
pub open spec fn within(s: KnownValues, assignment: Assignment) -> bool {
    forall|n: Seq<char>| #[trigger] s(n, assignment(n))
}

/// Assuming atomics that all hold under an assignment within the known values never
/// empties a domain, and keeps the assignment within the known values.
pub proof fn lemma_assume_premises_keeps(
    s: KnownValues,
    premises: Seq<Atomic>,
    i: int,
    assignment: Assignment,
)
    requires
        0 <= i,
        within(s, assignment),
        forall|k: int| 0 <= k < premises.len() ==> (#[trigger] premises[k]).holds(assignment),
    ensures
        !assume_premises_from(s, premises, i).1,
        within(assume_premises_from(s, premises, i).0, assignment),
    decreases premises.len() - i,
{
    if i < premises.len() {
        let a = premises[i];
        let next = assume_atomic(s, a);
        assert(a.holds(assignment));
        assert forall|n: Seq<char>| #[trigger] next(n, assignment(n)) by {
            assert(s(n, assignment(n)));
        }
        assert(next(a.spec_identifier(), assignment(a.spec_identifier())));
        lemma_assume_premises_keeps(next, premises, i + 1, assignment);
    }
}

proof fn lemma_propagation_keeps(
    s: KnownValues,
    inferences: Seq<SupportingInference>,
    i: int,
    assignment: Assignment,
)
    requires
        0 <= i,
        within(s, assignment),
        forall|k: int| 0 <= k < inferences.len() ==> inference_holds(#[trigger] inferences[k], assignment),
    ensures
        !propagate_inferences_from(s, inferences, i),
    decreases inferences.len() - i,
{
    if i < inferences.len() {
        let inference = inferences[i];
        assert(inference_holds(inference, assignment));
        if premises_entailed(s, inference) {
            assert forall|j: int|
                0 <= j < inference.premises@.len() implies (#[trigger] inference.premises@[
                j]).holds(assignment) by {
                let p = inference.premises@[j];
                assert(known_entails(s, p));
                assert(s(p.spec_identifier(), assignment(p.spec_identifier())));
            }
            match inference.consequent {
                None => {},
                Some(c) => {
                    let next = assume_atomic(s, c);
                    assert(c.holds(assignment));
                    assert forall|n: Seq<char>| #[trigger] next(n, assignment(n)) by {
                        assert(s(n, assignment(n)));
                    }
                    assert(next(c.spec_identifier(), assignment(c.spec_identifier())));
                    lemma_propagation_keeps(next, inferences, i + 1, assignment);
                },
            }
        } else {
            lemma_propagation_keeps(s, inferences, i + 1, assignment);
        }
    }
}

/// A deduction that is accepted is sound: no assignment satisfies its premises together with
/// the inferences that support it.
pub proof fn lemma_accepted_deduction_refutes(
    premises: Seq<Atomic>,
    inferences: Seq<SupportingInference>,
)
    requires
        deduction_accepted(premises, inferences),
    ensures
        deduction_refutes(premises, inferences),
{
    assert forall|assignment: Assignment|
        !#[trigger] satisfies_all(premises, inferences, assignment) by {
        if satisfies_all(premises, inferences, assignment) {
            assert(within(nothing_known(), assignment));
            lemma_assume_premises_keeps(nothing_known(), premises, 0, assignment);
            let (s, conflict) = assume_premises_from(nothing_known(), premises, 0);
            lemma_propagation_keeps(s, inferences, 0, assignment);
        }
    }
}

/// Whatever the inferences before index `i` add, the inference at `i` applies once its
/// premises hold wherever `s0` allows, and ends the run in a conflict once its consequent
/// allows none of the values that `s0` leaves for its variable.
proof fn lemma_propagation_reaches(
    s0: KnownValues,
    s: KnownValues,
    inferences: Seq<SupportingInference>,
    j: int,
    i: int,
)
    requires
        0 <= j <= i < inferences.len(),
        forall|n: Seq<char>, v: int| #[trigger] s(n, v) ==> s0(n, v),
        premises_entailed(s0, inferences[i]),
        inferences[i].consequent matches Some(c) ==> known_empty(
            assume_atomic(s0, c),
            c.spec_identifier(),
        ),
    ensures
        propagate_inferences_from(s, inferences, j),
    decreases i - j,
{
    if premises_entailed(s, inferences[j]) {
        match inferences[j].consequent {
            None => {},
            Some(c) => {
                let next = assume_atomic(s, c);
                if !known_empty(next, c.spec_identifier()) {
                    if j == i {
                        let w = choose|w: int| #[trigger] c.holds_for(w) && s(c.spec_identifier(), w);
                        assert(assume_atomic(s0, c)(c.spec_identifier(), w));
                    } else {
                        lemma_propagation_reaches(s0, next, inferences, j + 1, i);
                    }
                }
            },
        }
    } else {
        if j == i {
            assert forall|q: int|
                0 <= q < inferences[i].premises@.len() implies known_entails(
                s,
                #[trigger] inferences[i].premises@[q],
            ) by {
                assert(known_entails(s0, inferences[i].premises@[q]));
            }
        } else {
            lemma_propagation_reaches(s0, s, inferences, j + 1, i);
        }
    }
}

/// The checker misses no unit propagation: where every premise of some supporting
/// inference follows from a premise of the deduction over the same variable (an inference
/// without premises always qualifies), and the inference concludes false or a consequent
/// that no value of some premise of the deduction satisfies, the deduction is accepted,
/// whatever the other inferences say.
pub proof fn lemma_applicable_inference_is_applied(
    premises: Seq<Atomic>,
    inferences: Seq<SupportingInference>,
    i: int,
    p: int,
)
    requires
        0 <= i < inferences.len(),
        forall|q: int|
            0 <= q < inferences[i].premises@.len() ==> exists|k: int|
                0 <= k < premises.len() && (#[trigger] premises[k]).spec_identifier()
                    == (#[trigger] inferences[i].premises@[q]).spec_identifier() && forall|v: int|
                    premises[k].holds_for(v) ==> inferences[i].premises@[q].holds_for(v),
        inferences[i].consequent matches Some(c) ==> {
            &&& 0 <= p < premises.len()
            &&& premises[p].spec_identifier() == c.spec_identifier()
            &&& forall|v: int| !(premises[p].holds_for(v) && c.holds_for(v))
        },
    ensures
        deduction_accepted(premises, inferences),
{
    let (s0, conflict) = assume_premises_from(nothing_known(), premises, 0);
    if !conflict {
        lemma_assumed_values(nothing_known(), premises, 0);
        assert forall|q: int|
            0 <= q < inferences[i].premises@.len() implies known_entails(
            s0,
            #[trigger] inferences[i].premises@[q],
        ) by {
            let a = inferences[i].premises@[q];
            let k = choose|k: int|
                0 <= k < premises.len() && (#[trigger] premises[k]).spec_identifier()
                    == a.spec_identifier() && forall|v: int|
                    premises[k].holds_for(v) ==> a.holds_for(v);
            assert forall|v: int| s0(a.spec_identifier(), v) implies a.holds_for(v) by {
                assert(premises[k].holds_for(v));
            }
        }
        match inferences[i].consequent {
            None => {},
            Some(c) => {
                assert forall|v: int| !#[trigger] assume_atomic(s0, c)(c.spec_identifier(), v) by {
                    if assume_atomic(s0, c)(c.spec_identifier(), v) {
                        assert(s0(c.spec_identifier(), v));
                        assert(premises[p].holds_for(v));
                    }
                }
            },
        }
        lemma_propagation_reaches(s0, s0, inferences, 0, i);
    }
}

/// A checker of deductions: a deduction is a nogood `premises -> false` together with the
/// inferences that support it.
pub trait DeductionChecker {
    /// Whether the inferences show that the premises cannot hold together. Whatever the
    /// checker accepts is sound.
    fn verify_deduction(&self, premises: Vec<Atomic>, inferences: Vec<SupportingInference>) -> (r:
        bool)
        ensures
            r ==> deduction_refutes(premises@, inferences@),
    ;
}

} // verus!
