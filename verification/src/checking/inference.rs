use vstd::prelude::*;

use super::comparison::comparison_holds;
use super::variable_state::VariableState;
use crate::conflict_resolving::atomic::{lemma_negation_complements, Assignment, Atomic};
use crate::conflict_resolving::deduction::{
    assume_atomic,
    assume_premises_from,
    known_empty,
    known_entails,
    lemma_assume_premises_keeps,
    nothing_known,
    within,
    KnownValues,
};

verus! {

/// The state tracks exactly the values that `s` allows.
pub open spec fn tracks(state: VariableState, s: KnownValues) -> bool {
    forall|n: Seq<char>, v: int| #[trigger] state.contains(n, v) == s(n, v)
}

pub proof fn lemma_entails_tracked(state: VariableState, s: KnownValues, a: Atomic)
    requires
        tracks(state, s),
    ensures
        state.entails(a.spec_identifier(), a.spec_comparison(), a.spec_value()) == known_entails(
            s,
            a,
        ),
{
    if state.entails(a.spec_identifier(), a.spec_comparison(), a.spec_value()) {
        assert forall|v: int| s(a.spec_identifier(), v) implies a.holds_for(v) by {
            assert(state.contains(a.spec_identifier(), v));
        }
    }
    if known_entails(s, a) {
        assert forall|v: int| state.contains(a.spec_identifier(), v) implies comparison_holds(
            a.spec_comparison(),
            v,
            a.spec_value(),
        ) by {
            assert(s(a.spec_identifier(), v));
            assert(a.holds_for(v));
        }
    }
}

/// Restricts the state by `a`, following `s` along.
pub fn assume_tracked(state: &mut VariableState, a: &Atomic, Ghost(s): Ghost<KnownValues>) -> (consistent:
    bool)
    requires
        old(state).wf(),
        tracks(*old(state), s),
    ensures
        final(state).wf(),
        tracks(*final(state), assume_atomic(s, *a)),
        consistent == !known_empty(assume_atomic(s, *a), a.spec_identifier()),
{
    let name = a.identifier();
    let consistent = state.apply(&name, a.comparison(), a.value());
    proof {
        let next = assume_atomic(s, *a);
        assert forall|n: Seq<char>, v: int| #[trigger] state.contains(n, v) == next(n, v) by {}
        if !consistent {
            assert forall|v: int| !#[trigger] next(a.spec_identifier(), v) by {
                assert(!state.contains(a.spec_identifier(), v));
            }
        } else {
            let w = choose|w: int| state.contains(a.spec_identifier(), w);
            assert(next(a.spec_identifier(), w));
        }
    }
    consistent
}


/// The atomics that a conflict check assumes: the premises and, where there is a consequent,
/// its negation.
pub open spec fn conflict_check_atomics(premises: Seq<Atomic>, consequent: Option<&Atomic>) -> Seq<
    Atomic,
> {
    match consequent {
        Some(c) => premises.push(c.spec_negate()),
        None => premises,
    }
}

/// Assuming the atomics from index `i` on without reaching an empty domain leaves exactly
/// the values that satisfy all of them.
pub proof fn lemma_assumed_values(s: KnownValues, atomics: Seq<Atomic>, i: int)
    requires
        0 <= i,
        !assume_premises_from(s, atomics, i).1,
    ensures
        forall|n: Seq<char>, v: int|
            #[trigger] assume_premises_from(s, atomics, i).0(n, v) == (s(n, v) && forall|k: int|
                i <= k < atomics.len() && (#[trigger] atomics[k]).spec_identifier() == n
                    ==> atomics[k].holds_for(v)),
    decreases atomics.len() - i,
{
    if i < atomics.len() {
        let next = assume_atomic(s, atomics[i]);
        assert(!known_empty(next, atomics[i].spec_identifier()));
        assert(assume_premises_from(s, atomics, i) == assume_premises_from(next, atomics, i + 1));
        lemma_assumed_values(next, atomics, i + 1);
        assert forall|n: Seq<char>, v: int|
            #[trigger] assume_premises_from(s, atomics, i).0(n, v) == (s(n, v) && forall|k: int|
                i <= k < atomics.len() && (#[trigger] atomics[k]).spec_identifier() == n
                    ==> atomics[k].holds_for(v)) by {
            let later = forall|k: int|
                i + 1 <= k < atomics.len() && (#[trigger] atomics[k]).spec_identifier() == n
                    ==> atomics[k].holds_for(v);
            let all = forall|k: int|
                i <= k < atomics.len() && (#[trigger] atomics[k]).spec_identifier() == n
                    ==> atomics[k].holds_for(v);
            assert(assume_premises_from(s, atomics, i).0(n, v) == (next(n, v) && later));
            if s(n, v) && all {
                if atomics[i].spec_identifier() == n {
                    assert(atomics[i].holds_for(v));
                }
                assert(next(n, v));
            }
            if next(n, v) && later {
                assert forall|k: int|
                    i <= k < atomics.len() && (#[trigger] atomics[k]).spec_identifier() == n
                        implies atomics[k].holds_for(v) by {
                    if k == i {
                    }
                }
            }
        }
    }
}

/// A variable of a constraint: a named variable or a constant.
#[derive(Clone, Debug, PartialEq, Eq, Hash)]
pub enum Variable {
    Identifier(String),
    Constant(i32),
}

impl Variable {
    /// The value of the variable under the assignment.
    pub open spec fn value(self, assignment: Assignment) -> int {
        match self {
            Variable::Identifier(name) => assignment(name@),
            Variable::Constant(c) => c as int,
        }
    }

    /// The name of a named variable; `None` for a constant.
    pub open spec fn named(self) -> Option<Seq<char>> {
        match self {
            Variable::Identifier(name) => Some(name@),
            Variable::Constant(_) => None,
        }
    }

    /// Whether the state lets the variable take the value `v`.
    pub open spec fn allows(self, state: VariableState, v: int) -> bool {
        match self {
            Variable::Identifier(name) => state.contains(name@, v),
            Variable::Constant(c) => v == c,
        }
    }
}

/// A checker of the inferences that the propagator of one constraint makes.
pub trait InferenceChecker {
    /// Whether the assignment satisfies the constraint.
    spec fn satisfied_by(&self, assignment: Assignment) -> bool;

    /// Whether the state, prepared from the premises and the negated consequent of an
    /// inference, is in conflict with the constraint. A conflict is only reported where no
    /// assignment that the state admits satisfies the constraint.
    fn check(&self, state: VariableState, premises: &Vec<Atomic>, consequent: Option<&Atomic>) -> (conflict: bool)
        requires
            state.wf(),
        ensures
            conflict ==> forall|a: Assignment| state.admits(a) ==> !#[trigger] self.satisfied_by(a),
    ;
}

/// Every atomic holds under the assignment.
pub open spec fn all_hold(atomics: Seq<Atomic>, assignment: Assignment) -> bool {
    forall|k: int| 0 <= k < atomics.len() ==> (#[trigger] atomics[k]).holds(assignment)
}

/// Where assuming the atomics one by one empties a domain, no assignment satisfies them all.
proof fn lemma_no_assignment_where_empty(atomics: Seq<Atomic>)
    requires
        assume_premises_from(nothing_known(), atomics, 0).1,
    ensures
        forall|a: Assignment| !#[trigger] all_hold(atomics, a),
{
    assert forall|a: Assignment| !#[trigger] all_hold(atomics, a) by {
        if all_hold(atomics, a) {
            assert(within(nothing_known(), a));
            lemma_assume_premises_keeps(nothing_known(), atomics, 0, a);
        }
    }
}

/// The inference holds under the assignment: where all premises hold, so does the
/// consequent; an inference without consequent needs some premise to fail.
pub open spec fn inference_holds_under(
    premises: Seq<Atomic>,
    consequent: Option<&Atomic>,
    assignment: Assignment,
) -> bool {
    (forall|k: int| 0 <= k < premises.len() ==> (#[trigger] premises[k]).holds(assignment))
        ==> match consequent {
        Some(c) => c.holds(assignment),
        None => false,
    }
}

/// A conflict between a constraint and the state prepared for an inference proves the
/// inference: every assignment that satisfies the constraint satisfies the inference.
pub proof fn lemma_conflict_proves_inference<C: InferenceChecker>(
    checker: &C,
    premises: Seq<Atomic>,
    consequent: Option<&Atomic>,
    state: VariableState,
    assignment: Assignment,
)
    requires
        consequent matches Some(c) ==> c is IntAtomic && c.can_negate(),
        forall|b: Assignment|
            #[trigger] state.admits(b) <==> all_hold(conflict_check_atomics(premises, consequent), b),
        forall|b: Assignment| state.admits(b) ==> !#[trigger] checker.satisfied_by(b),
        checker.satisfied_by(assignment),
    ensures
        inference_holds_under(premises, consequent, assignment),
{
    let atomics = conflict_check_atomics(premises, consequent);
    if forall|k: int| 0 <= k < premises.len() ==> (#[trigger] premises[k]).holds(assignment) {
        assert(!state.admits(assignment));
        match consequent {
            Some(c) => {
                let v = assignment(c.spec_identifier());
                lemma_negation_complements(*c, v);
                if !c.holds(assignment) {
                    assert forall|k: int| 0 <= k < atomics.len() implies (
                    #[trigger] atomics[k]).holds(assignment) by {
                        if k < premises.len() {
                            assert(atomics[k] == premises[k]);
                        }
                    }
                }
            },
            None => {
                assert forall|k: int| 0 <= k < atomics.len() implies (#[trigger] atomics[k]).holds(
                    assignment,
                ) by {
                    assert(atomics[k] == premises[k]);
                }
            },
        }
    }
}

impl VariableState {
    /// The state in which the premises hold and the consequent, if any, does not; `None`
    /// where these atomics contradict each other.
    pub fn prepare_for_conflict_check(premises: &Vec<Atomic>, consequent: Option<&Atomic>) -> (r:
        Option<VariableState>)
        requires
            consequent matches Some(c) ==> c.can_negate(),
        ensures
            ({
                let atomics = conflict_check_atomics(premises@, consequent);
                &&& r is None <==> assume_premises_from(nothing_known(), atomics, 0).1
                &&& r is None ==> forall|a: Assignment| !#[trigger] all_hold(atomics, a)
                &&& r matches Some(s) ==> s.wf() && forall|a: Assignment|
                    #[trigger] s.admits(a) <==> all_hold(atomics, a)
            }),
    {
        let ghost atomics = conflict_check_atomics(premises@, consequent);
        let mut state = VariableState::new();
        let ghost mut s = nothing_known();
        let mut i: usize = 0;
        while i < premises.len()
            invariant
                0 <= i <= premises@.len(),
                state.wf(),
                tracks(state, s),
                atomics == conflict_check_atomics(premises@, consequent),
                forall|k: int| 0 <= k < premises@.len() ==> atomics[k] == premises@[k],
                atomics.len() >= premises@.len(),
                assume_premises_from(s, atomics, i as int) == assume_premises_from(
                    nothing_known(),
                    atomics,
                    0,
                ),
            decreases premises.len() - i,
        {
            let ghost before = s;
            let consistent = assume_tracked(&mut state, &premises[i], Ghost(s));
            proof {
                s = assume_atomic(before, premises@[i as int]);
                assert(atomics[i as int] == premises@[i as int]);
            }
            if !consistent {
                proof {
                    let next = assume_atomic(before, atomics[i as int]);
                    assert(known_empty(next, atomics[i as int].spec_identifier()));
                    assert(assume_premises_from(before, atomics, i as int) == (next, true));
                    lemma_no_assignment_where_empty(atomics);
                }
                return None;
            }
            i = i + 1;
        }
        if let Some(c) = consequent {
            let negated = c.negate();
            let ghost before = s;
            let consistent = assume_tracked(&mut state, &negated, Ghost(s));
            proof {
                s = assume_atomic(before, negated);
                assert(atomics[premises@.len() as int] == negated);
            }
            proof {
                assert(atomics.len() == premises@.len() + 1);
                assert(assume_premises_from(before, atomics, premises@.len() as int)
                    == assume_premises_from(nothing_known(), atomics, 0));
            }
            if !consistent {
                proof {
                    lemma_no_assignment_where_empty(atomics);
                }
                return None;
            }
            proof {
                assert(assume_premises_from(s, atomics, atomics.len() as int) == (s, false));
                assert(assume_premises_from(before, atomics, premises@.len() as int)
                    == assume_premises_from(s, atomics, atomics.len() as int));
            }
        } else {
            proof {
                assert(atomics == premises@);
                assert(assume_premises_from(s, atomics, atomics.len() as int) == (s, false));
            }
        }
        proof {
            let total = assume_premises_from(nothing_known(), atomics, 0);
            assert(total == (s, false));
            lemma_assumed_values(nothing_known(), atomics, 0);
            assert forall|a: Assignment| #[trigger]
                state.admits(a) <==> forall|k: int|
                    0 <= k < atomics.len() ==> (#[trigger] atomics[k]).holds(a) by {
                if state.admits(a) {
                    assert forall|k: int| 0 <= k < atomics.len() implies (#[trigger] atomics[k]).holds(a) by {
                        let n = atomics[k].spec_identifier();
                        assert(state.contains(n, a(n)));
                        assert(s(n, a(n)));
                        assert(total.0(n, a(n)));
                    }
                }
                if forall|k: int| 0 <= k < atomics.len() ==> (#[trigger] atomics[k]).holds(a) {
                    assert forall|n: Seq<char>| #[trigger] state.contains(n, a(n)) by {
                        assert forall|k: int|
                            0 <= k < atomics.len() && (#[trigger] atomics[k]).spec_identifier()
                                == n implies atomics[k].holds_for(a(n)) by {
                            assert(atomics[k].holds(a));
                        }
                        assert(total.0(n, a(n)));
                        assert(s(n, a(n)));
                    }
                }
            }
        }
        Some(state)
    }
}

} // verus!
