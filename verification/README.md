# implementation

Verified building blocks of a lazy clause generation constraint solver, written in Verus.

- `checking`: domains of integer variables, the variable state that an inference is checked
  in, and the `InferenceChecker` trait.
- `conflict_resolving`: atomic constraints, supporting inferences, the `DeductionChecker` and
  `NogoodMinimiser` traits, and what it means for a deduction to be accepted.
- `conflict_analysis`: the deduction checker, the semantic nogood minimiser and the
  all-decision resolver.
- `predicates`: solver predicates over integer domains and the initial domains.
- `propagators`: inference checkers for the all-different and circuit constraints.
- `constraints`: the propagators that posting all-different and circuit adds.
- `proof_processing`: reading a proof scaffold, the stack of deductions, the conversion between
  predicates and proof atomics, the justification of conflicts, and writing the processed proof.

`app/` holds the copies of library types that carry command-line and error derives.
