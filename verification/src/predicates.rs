//! Predicates over the integer domains of the solver, and the initial domains they refer to.
use vstd::prelude::*;

verus! {

/// The identifier of an integer domain.
#[derive(Clone, Copy, Debug, PartialEq, Eq, PartialOrd, Ord, Hash, Structural)]
pub struct DomainId {
    pub id: u32,
}

/// The kind of a predicate `[domain <type> rhs]`.
#[derive(Clone, Copy, Debug, PartialEq, Eq, PartialOrd, Ord, Hash, Structural)]
pub enum PredicateType {
    LowerBound,
    UpperBound,
    NotEqual,
    Equal,
}

/// A predicate over an integer domain: `[domain >= rhs]`, `[domain <= rhs]`, `[domain != rhs]`
/// or `[domain == rhs]`.
#[derive(Clone, Copy, Debug, PartialEq, Eq, PartialOrd, Ord, Hash, Structural)]
pub struct Predicate {
    pub domain: DomainId,
    pub predicate_type: PredicateType,
    pub rhs: i32,
}

/// A value for every domain.
pub type DomainAssignment = spec_fn(DomainId) -> int;

/// The domain that is fixed to `1` from the start; the trivial predicates refer to it.
pub open spec fn constant_domain() -> DomainId {
    DomainId { id: 0 }
}

impl Predicate {
    /// Whether the predicate holds when its domain takes the value `v`.
    pub open spec fn holds_for(self, v: int) -> bool {
        match self.predicate_type {
            PredicateType::LowerBound => v >= self.rhs,
            PredicateType::UpperBound => v <= self.rhs,
            PredicateType::NotEqual => v != self.rhs,
            PredicateType::Equal => v == self.rhs,
        }
    }

    /// Whether the predicate holds under the assignment.
    pub open spec fn holds(self, assignment: DomainAssignment) -> bool {
        self.holds_for(assignment(self.domain))
    }

    pub fn lower_bound(domain: DomainId, rhs: i32) -> (p: Predicate)
        ensures
            p == (Predicate { domain, predicate_type: PredicateType::LowerBound, rhs }),
    {
        Predicate { domain, predicate_type: PredicateType::LowerBound, rhs }
    }

    pub fn upper_bound(domain: DomainId, rhs: i32) -> (p: Predicate)
        ensures
            p == (Predicate { domain, predicate_type: PredicateType::UpperBound, rhs }),
    {
        Predicate { domain, predicate_type: PredicateType::UpperBound, rhs }
    }

    pub fn not_equal(domain: DomainId, rhs: i32) -> (p: Predicate)
        ensures
            p == (Predicate { domain, predicate_type: PredicateType::NotEqual, rhs }),
    {
        Predicate { domain, predicate_type: PredicateType::NotEqual, rhs }
    }

    pub fn equal(domain: DomainId, rhs: i32) -> (p: Predicate)
        ensures
            p == (Predicate { domain, predicate_type: PredicateType::Equal, rhs }),
    {
        Predicate { domain, predicate_type: PredicateType::Equal, rhs }
    }

    pub open spec fn spec_trivially_false() -> Predicate {
        Predicate { domain: constant_domain(), predicate_type: PredicateType::NotEqual, rhs: 1 }
    }

    pub open spec fn spec_trivially_true() -> Predicate {
        Predicate { domain: constant_domain(), predicate_type: PredicateType::Equal, rhs: 1 }
    }

    /// The predicate that never holds: `[constant != 1]`.
    pub fn trivially_false() -> (p: Predicate)
        ensures
            p == Predicate::spec_trivially_false(),
    {
        Predicate::not_equal(DomainId { id: 0 }, 1)
    }

    /// The predicate that always holds: `[constant == 1]`.
    pub fn trivially_true() -> (p: Predicate)
        ensures
            p == Predicate::spec_trivially_true(),
    {
        Predicate::equal(DomainId { id: 0 }, 1)
    }

    /// The predicate over the same domain with the complementary condition.
    pub open spec fn negation(self) -> Predicate {
        match self.predicate_type {
            PredicateType::LowerBound => Predicate {
                domain: self.domain,
                predicate_type: PredicateType::UpperBound,
                rhs: (self.rhs - 1) as i32,
            },
            PredicateType::UpperBound => Predicate {
                domain: self.domain,
                predicate_type: PredicateType::LowerBound,
                rhs: (self.rhs + 1) as i32,
            },
            PredicateType::NotEqual => Predicate {
                domain: self.domain,
                predicate_type: PredicateType::Equal,
                rhs: self.rhs,
            },
            PredicateType::Equal => Predicate {
                domain: self.domain,
                predicate_type: PredicateType::NotEqual,
                rhs: self.rhs,
            },
        }
    }

    /// The predicate that holds exactly where this one does not.
    pub fn negate(&self) -> (p: Predicate)
        requires
            self.predicate_type == PredicateType::LowerBound ==> self.rhs > i32::MIN,
            self.predicate_type == PredicateType::UpperBound ==> self.rhs < i32::MAX,
        ensures
            p == self.negation(),
            p.domain == self.domain,
            forall|v: int| p.holds_for(v) == !self.holds_for(v),
    {
        match self.predicate_type {
            PredicateType::LowerBound => Predicate::upper_bound(self.domain, self.rhs - 1),
            PredicateType::UpperBound => Predicate::lower_bound(self.domain, self.rhs + 1),
            PredicateType::NotEqual => Predicate::equal(self.domain, self.rhs),
            PredicateType::Equal => Predicate::not_equal(self.domain, self.rhs),
        }
    }
}

/// The bounds of every domain before any decision: domain `i` ranges over
/// `bounds[i].0 ..= bounds[i].1`. Domain `0` is the constant domain, fixed to `1`.
#[derive(Clone, Debug)]
pub struct InitialDomains {
    bounds: Vec<(i32, i32)>,
}

impl InitialDomains {
    pub closed spec fn wf(self) -> bool {
        &&& self.bounds@.len() >= 1
        &&& self.bounds@[0] == (1i32, 1i32)
        &&& self.bounds@.len() <= u32::MAX + 1
        &&& forall|i: int| 0 <= i < self.bounds@.len() ==> (#[trigger] self.bounds@[i]).0 <= self.bounds@[i].1
    }

    /// The number of domains.
    pub closed spec fn len(self) -> nat {
        self.bounds@.len()
    }

    pub open spec fn has(self, d: DomainId) -> bool {
        d.id < self.len()
    }

    pub closed spec fn lb(self, d: DomainId) -> int {
        self.bounds@[d.id as int].0 as int
    }

    pub closed spec fn ub(self, d: DomainId) -> int {
        self.bounds@[d.id as int].1 as int
    }

    /// Whether `v` is in the initial domain of `d`.
    pub open spec fn contains(self, d: DomainId, v: int) -> bool {
        self.lb(d) <= v <= self.ub(d)
    }

    /// The assignment gives every domain a value of its initial domain.
    pub open spec fn admits(self, assignment: DomainAssignment) -> bool {
        forall|d: DomainId| self.has(d) ==> #[trigger] self.contains(d, assignment(d))
    }

    pub proof fn lemma_wf(self)
        requires
            self.wf(),
        ensures
            self.len() >= 1,
            self.has(constant_domain()),
            self.lb(constant_domain()) == 1,
            self.ub(constant_domain()) == 1,
            forall|d: DomainId| self.has(d) ==> #[trigger] self.lb(d) <= self.ub(d),
            forall|d: DomainId|
                self.has(d) ==> i32::MIN <= #[trigger] self.lb(d) && self.ub(d) <= i32::MAX,
    {
        assert forall|d: DomainId| self.has(d) implies #[trigger] self.lb(d) <= self.ub(d) by {
            assert(self.bounds@[d.id as int].0 <= self.bounds@[d.id as int].1);
        }
    }

    /// The domains that only hold the constant domain.
    pub fn new() -> (domains: InitialDomains)
        ensures
            domains.wf(),
            domains.len() == 1,
    {
        let mut bounds = Vec::new();
        bounds.push((1i32, 1i32));
        InitialDomains { bounds }
    }

    /// Adds a domain ranging over `lower ..= upper` and returns its identifier.
    pub fn new_domain(&mut self, lower: i32, upper: i32) -> (d: DomainId)
        requires
            old(self).wf(),
            lower <= upper,
            old(self).len() <= u32::MAX,
        ensures
            final(self).wf(),
            d.id == old(self).len(),
            final(self).len() == old(self).len() + 1,
            final(self).lb(d) == lower,
            final(self).ub(d) == upper,
            forall|e: DomainId|
                old(self).has(e) ==> final(self).lb(e) == old(self).lb(e) && final(self).ub(e)
                    == old(self).ub(e),
    {
        let id = self.bounds.len() as u32;
        self.bounds.push((lower, upper));
        proof {
            assert forall|i: int| 0 <= i < self.bounds@.len() implies (
            #[trigger] self.bounds@[i]).0 <= self.bounds@[i].1 by {
                if i < old(self).bounds@.len() {
                    assert(self.bounds@[i] == old(self).bounds@[i]);
                }
            }
            assert forall|e: DomainId| old(self).has(e) implies self.lb(e) == old(self).lb(e)
                && self.ub(e) == old(self).ub(e) by {
                assert(self.bounds@[e.id as int] == old(self).bounds@[e.id as int]);
            }
        }
        DomainId { id }
    }

    /// The initial bounds of `d`.
    pub fn bounds_of(&self, d: DomainId) -> (b: (i32, i32))
        requires
            self.has(d),
        ensures
            b.0 == self.lb(d),
            b.1 == self.ub(d),
    {
        self.bounds[d.id as usize]
    }
}

} // verus!
