use vstd::prelude::*;

use crate::predicates::{DomainAssignment, InitialDomains, Predicate};

verus! {

/// Whether every predicate of the conjunction holds under the assignment.
pub open spec fn conjunction_holds(nogood: Seq<Predicate>, assignment: DomainAssignment) -> bool {
    forall|i: int| 0 <= i < nogood.len() ==> (#[trigger] nogood[i]).holds(assignment)
}

/// Every predicate refers to one of the domains.
pub open spec fn refers_to_known_domains(domains: InitialDomains, nogood: Seq<Predicate>) -> bool {
    forall|i: int| 0 <= i < nogood.len() ==> domains.has((#[trigger] nogood[i]).domain)
}

/// A nogood minimisation approach.
///
/// A nogood is a conjunction of predicates that cannot hold together. Minimisation removes
/// redundant predicates; the result holds under exactly the same assignments of the initial
/// domains as the nogood that was given.
pub trait NogoodMinimiser {
    fn minimise(&mut self, domains: &InitialDomains, nogood: &mut Vec<Predicate>)
        requires
            domains.wf(),
            refers_to_known_domains(*domains, old(nogood)@),
        ensures
            forall|assignment: DomainAssignment|
                domains.admits(assignment) ==> (conjunction_holds(final(nogood)@, assignment)
                    == conjunction_holds(old(nogood)@, assignment)),
    ;
}

} // verus!
