use vstd::prelude::*;

use crate::checking::inference::{assume_tracked, lemma_entails_tracked, tracks};
use crate::checking::variable_state::VariableState;
use crate::conflict_resolving::atomic::Atomic;
use crate::conflict_resolving::deduction::{
    assume_atomic,
    assume_premises_from,
    deduction_accepted,
    known_empty,
    known_entails,
    lemma_accepted_deduction_refutes,
    nothing_known,
    premises_entailed,
    propagate_inferences_from,
    DeductionChecker,
    KnownValues,
    SupportingInference,
};

verus! {

/// Checks a deduction by assuming its premises and then applying its inferences in order.
#[derive(Debug, Copy, Clone)]
pub struct DeductionCheckerImpl;

impl DeductionCheckerImpl {
    /// Whether the state entails every premise.
    fn all_entailed(state: &VariableState, premises: &Vec<Atomic>, Ghost(s): Ghost<KnownValues>) -> (r:
        bool)
        requires
            state.wf(),
            tracks(*state, s),
        ensures
            r == forall|j: int| 0 <= j < premises@.len() ==> known_entails(s, #[trigger] premises@[j]),
    {
        let mut j: usize = 0;
        while j < premises.len()
            invariant
                0 <= j <= premises@.len(),
                state.wf(),
                tracks(*state, s),
                forall|k: int| 0 <= k < j ==> known_entails(s, #[trigger] premises@[k]),
            decreases premises.len() - j,
        {
            let p = &premises[j];
            let name = p.identifier();
            let entailed = state.is_true(&name, p.comparison(), p.value());
            proof {
                lemma_entails_tracked(*state, s, *p);
            }
            if !entailed {
                return false;
            }
            j = j + 1;
        }
        true
    }

    /// Whether the deduction `premises -> false` follows: the premises are assumed one at a
    /// time, then each inference whose premises are all entailed contributes its consequent,
    /// until a consequent is false or leaves a variable without a value.
    pub fn check(premises: &Vec<Atomic>, inferences: &Vec<SupportingInference>) -> (r: bool)
        ensures
            r == deduction_accepted(premises@, inferences@),
    {
        let mut state = VariableState::new();
        let ghost mut s = nothing_known();
        let ghost goal = deduction_accepted(premises@, inferences@);
        let mut i: usize = 0;
        while i < premises.len()
            invariant
                0 <= i <= premises@.len(),
                state.wf(),
                tracks(state, s),
                goal == deduction_accepted(premises@, inferences@),
                assume_premises_from(s, premises@, i as int) == assume_premises_from(
                    nothing_known(),
                    premises@,
                    0,
                ),
            decreases premises.len() - i,
        {
            let ghost before = s;
            let consistent = assume_tracked(&mut state, &premises[i], Ghost(s));
            proof {
                s = assume_atomic(before, premises@[i as int]);
            }
            if !consistent {
                return true;
            }
            i = i + 1;
        }
        let mut k: usize = 0;
        while k < inferences.len()
            invariant
                0 <= k <= inferences@.len(),
                state.wf(),
                tracks(state, s),
                goal == deduction_accepted(premises@, inferences@),
                propagate_inferences_from(s, inferences@, k as int) == goal,
            decreases inferences.len() - k,
        {
            let inference = &inferences[k];
            let entailed = Self::all_entailed(&state, &inference.premises, Ghost(s));
            proof {
                assert(entailed == premises_entailed(s, inferences@[k as int]));
            }
            if entailed {
                match &inference.consequent {
                    None => {
                        return true;
                    },
                    Some(c) => {
                        let ghost before = s;
                        let consistent = assume_tracked(&mut state, c, Ghost(s));
                        proof {
                            s = assume_atomic(before, *c);
                        }
                        if !consistent {
                            return true;
                        }
                    },
                }
            }
            k = k + 1;
        }
        false
    }
}

impl DeductionChecker for DeductionCheckerImpl {
    fn verify_deduction(&self, premises: Vec<Atomic>, inferences: Vec<SupportingInference>) -> (r:
        bool)
        ensures
            r == deduction_accepted(premises@, inferences@),
    {
        let r = Self::check(&premises, &inferences);
        proof {
            if r {
                lemma_accepted_deduction_refutes(premises@, inferences@);
            }
        }
        r
    }
}

} // verus!
