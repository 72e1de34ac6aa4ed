use vstd::prelude::*;

use crate::conflict_resolving::nogood_minimiser::{
    conjunction_holds,
    refers_to_known_domains,
    NogoodMinimiser,
};
use crate::seq_facts::{lemma_concat_contains, lemma_concat_no_duplicates, lemma_push_contains, lemma_push_no_duplicates};
use crate::predicates::{
    constant_domain,
    DomainAssignment,
    DomainId,
    InitialDomains,
    Predicate,
    PredicateType,
};

verus! {

/// Some predicate of the nogood refers to `d`.
pub open spec fn mentions(nogood: Seq<Predicate>, d: DomainId) -> bool {
    exists|i: int| 0 <= i < nogood.len() && (#[trigger] nogood[i]).domain == d
}

/// Some predicate before index `i` refers to `d`.
pub open spec fn mentioned_before(nogood: Seq<Predicate>, i: int, d: DomainId) -> bool {
    exists|j: int| 0 <= j < i && (#[trigger] nogood[j]).domain == d
}

/// Whether `d` can take the value `v` under the nogood: `v` is in the initial domain of `d`
/// and satisfies every predicate of the nogood over `d`.
pub open spec fn allowed(
    domains: InitialDomains,
    nogood: Seq<Predicate>,
    d: DomainId,
    v: int,
) -> bool {
    &&& domains.contains(d, v)
    &&& forall|i: int|
        0 <= i < nogood.len() && (#[trigger] nogood[i]).domain == d ==> nogood[i].holds_for(v)
}

/// Every domain that the nogood mentions keeps some value.
pub open spec fn consistent(domains: InitialDomains, nogood: Seq<Predicate>) -> bool {
    forall|d: DomainId|
        #[trigger] mentions(nogood, d) ==> exists|v: int| allowed(domains, nogood, d, v)
}

pub open spec fn is_least(domains: InitialDomains, nogood: Seq<Predicate>, d: DomainId, x: int) -> bool {
    &&& allowed(domains, nogood, d, x)
    &&& forall|v: int| #[trigger] allowed(domains, nogood, d, v) ==> x <= v
}

pub open spec fn is_greatest(
    domains: InitialDomains,
    nogood: Seq<Predicate>,
    d: DomainId,
    x: int,
) -> bool {
    &&& allowed(domains, nogood, d, x)
    &&& forall|v: int| #[trigger] allowed(domains, nogood, d, v) ==> v <= x
}

/// Whether `p` belongs to the minimised form of the nogood. For each domain that the nogood
/// mentions, the minimised form states the least and the greatest allowed value, unless the
/// initial domain already implies them, as a single equality where they coincide, and the
/// values between them that are not allowed.
pub open spec fn in_minimised_form(
    domains: InitialDomains,
    nogood: Seq<Predicate>,
    p: Predicate,
) -> bool {
    let d = p.domain;
    let x = p.rhs as int;
    &&& mentions(nogood, d)
    &&& match p.predicate_type {
        PredicateType::LowerBound => {
            &&& is_least(domains, nogood, d, x)
            &&& !is_greatest(domains, nogood, d, x)
            &&& x > domains.lb(d)
        },
        PredicateType::UpperBound => {
            &&& is_greatest(domains, nogood, d, x)
            &&& !is_least(domains, nogood, d, x)
            &&& x < domains.ub(d)
        },
        PredicateType::Equal => {
            &&& is_least(domains, nogood, d, x)
            &&& is_greatest(domains, nogood, d, x)
            &&& domains.lb(d) != domains.ub(d)
        },
        PredicateType::NotEqual => {
            &&& !allowed(domains, nogood, d, x)
            &&& exists|v: int| #[trigger] allowed(domains, nogood, d, v) && v < x
            &&& exists|v: int| #[trigger] allowed(domains, nogood, d, v) && v > x
        },
    }
}

/// What minimising a nogood gives: the predicates of its minimised form, each once, where
/// every mentioned domain keeps a value; the single predicate false otherwise.
pub open spec fn is_minimisation_of(
    domains: InitialDomains,
    nogood: Seq<Predicate>,
    out: Seq<Predicate>,
) -> bool {
    &&& consistent(domains, nogood) ==> out.no_duplicates() && forall|p: Predicate|
        #[trigger] out.contains(p) == in_minimised_form(domains, nogood, p)
    &&& !consistent(domains, nogood) ==> out == seq![Predicate::spec_trivially_false()]
}

/// Some predicate of the nogood is `[d != v]`.
pub open spec fn excluded(nogood: Seq<Predicate>, d: DomainId, v: int) -> bool {
    exists|i: int|
        0 <= i < nogood.len() && (#[trigger] nogood[i]).domain == d && nogood[i].predicate_type
            == PredicateType::NotEqual && nogood[i].rhs == v
}

/// Some predicate before index `i` is `[d != x]`.
pub open spec fn listed_before(nogood: Seq<Predicate>, i: int, d: DomainId, x: int) -> bool {
    exists|j: int|
        0 <= j < i && (#[trigger] nogood[j]).domain == d && nogood[j].predicate_type
            == PredicateType::NotEqual && nogood[j].rhs == x
}

proof fn lemma_listed_step(nogood: Seq<Predicate>, i: int, d: DomainId, x: int)
    requires
        0 <= i < nogood.len(),
    ensures
        listed_before(nogood, i + 1, d, x) == (listed_before(nogood, i, d, x) || (
        nogood[i].domain == d && nogood[i].predicate_type == PredicateType::NotEqual
            && nogood[i].rhs == x)),
{
    if listed_before(nogood, i + 1, d, x) && !listed_before(nogood, i, d, x) {
        let j = choose|j: int|
            0 <= j < i + 1 && (#[trigger] nogood[j]).domain == d && nogood[j].predicate_type
                == PredicateType::NotEqual && nogood[j].rhs == x;
        assert(j == i);
    }
}

/// Every bound or equality predicate over `d` before index `i` holds for `v`.
pub open spec fn bounds_hold(nogood: Seq<Predicate>, d: DomainId, i: int, v: int) -> bool {
    forall|j: int|
        0 <= j < i && (#[trigger] nogood[j]).domain == d && nogood[j].predicate_type
            != PredicateType::NotEqual ==> nogood[j].holds_for(v)
}

proof fn lemma_bounds_hold_step(nogood: Seq<Predicate>, d: DomainId, i: int, v: int)
    requires
        0 <= i < nogood.len(),
    ensures
        bounds_hold(nogood, d, i + 1, v) == (bounds_hold(nogood, d, i, v) && (nogood[i].domain
            == d && nogood[i].predicate_type != PredicateType::NotEqual ==> nogood[i].holds_for(
            v,
        ))),
{
}

/// Reduces a nogood to one equivalent predicate set per domain, using the initial domains.
///
/// For every domain the predicates are combined into the set of values that the domain can
/// still take. A nogood under which some domain keeps no value becomes the single predicate
/// false.
#[derive(Debug)]
pub struct SemanticMinimiser {}

impl SemanticMinimiser {
    pub fn new() -> (minimiser: SemanticMinimiser) {
        SemanticMinimiser {  }
    }

    /// The bounds that the initial domain and the bound and equality predicates over `d`
    /// impose.
    fn bounds_for(domains: &InitialDomains, nogood: &Vec<Predicate>, d: DomainId) -> (r: (
        i64,
        i64,
    ))
        requires
            domains.wf(),
            domains.has(d),
        ensures
            domains.lb(d) <= r.0,
            r.1 <= domains.ub(d),
            forall|v: int|
                #![trigger allowed(*domains, nogood@, d, v)]
                allowed(*domains, nogood@, d, v) == (r.0 <= v <= r.1 && !excluded(
                    nogood@,
                    d,
                    v,
                )),
    {
        proof {
            domains.lemma_wf();
        }
        let (lb, ub) = domains.bounds_of(d);
        let mut lower: i64 = lb as i64;
        let mut upper: i64 = ub as i64;
        let mut i: usize = 0;
        while i < nogood.len()
            invariant
                0 <= i <= nogood@.len(),
                domains.lb(d) <= lower,
                upper <= domains.ub(d),
                lb == domains.lb(d),
                ub == domains.ub(d),
                forall|v: int|
                    (lower <= v <= upper) == (domains.contains(d, v) && #[trigger] bounds_hold(
                        nogood@,
                        d,
                        i as int,
                        v,
                    )),
            decreases nogood.len() - i,
        {
            let p = nogood[i];
            let ghost old_lower = lower;
            let ghost old_upper = upper;
            if p.domain == d {
                let rhs = p.rhs as i64;
                match p.predicate_type {
                    PredicateType::LowerBound => {
                        if rhs > lower {
                            lower = rhs;
                        }
                    },
                    PredicateType::UpperBound => {
                        if rhs < upper {
                            upper = rhs;
                        }
                    },
                    PredicateType::Equal => {
                        if rhs > lower {
                            lower = rhs;
                        }
                        if rhs < upper {
                            upper = rhs;
                        }
                    },
                    PredicateType::NotEqual => {},
                }
            }
            proof {
                assert forall|v: int|
                    (lower <= v <= upper) == (domains.contains(d, v) && #[trigger] bounds_hold(
                        nogood@,
                        d,
                        i + 1,
                        v,
                    )) by {
                    lemma_bounds_hold_step(nogood@, d, i as int, v);
                    assert((old_lower <= v <= old_upper) == (domains.contains(d, v) && bounds_hold(
                        nogood@,
                        d,
                        i as int,
                        v,
                    )));
                }
            }
            i = i + 1;
        }
        proof {
            assert forall|v: int|
                #![trigger allowed(*domains, nogood@, d, v)]
                allowed(*domains, nogood@, d, v) == (lower <= v <= upper && !excluded(
                    nogood@,
                    d,
                    v,
                )) by {
                assert((lower <= v <= upper) == (domains.contains(d, v) && bounds_hold(
                    nogood@,
                    d,
                    nogood@.len() as int,
                    v,
                )));
                if allowed(*domains, nogood@, d, v) {
                    assert(bounds_hold(nogood@, d, nogood@.len() as int, v));
                    if excluded(nogood@, d, v) {
                        let j = choose|j: int|
                            0 <= j < nogood@.len() && (#[trigger] nogood@[j]).domain == d
                                && nogood@[j].predicate_type == PredicateType::NotEqual
                                && nogood@[j].rhs == v;
                        assert(nogood@[j].holds_for(v));
                    }
                }
                if lower <= v <= upper && !excluded(nogood@, d, v) {
                    assert forall|j: int|
                        0 <= j < nogood@.len() && (#[trigger] nogood@[j]).domain
                            == d implies nogood@[j].holds_for(v) by {
                        if nogood@[j].predicate_type == PredicateType::NotEqual {
                            if nogood@[j].rhs == v {
                                assert(excluded(nogood@, d, v));
                            }
                        }
                    }
                }
            }
        }
        (lower, upper)
    }

    /// Whether some predicate of the nogood is `[d != v]`.
    fn is_excluded(nogood: &Vec<Predicate>, d: DomainId, v: i64) -> (r: bool)
        ensures
            r == excluded(nogood@, d, v as int),
    {
        let mut i: usize = 0;
        while i < nogood.len()
            invariant
                0 <= i <= nogood@.len(),
                forall|j: int|
                    0 <= j < i ==> !((#[trigger] nogood@[j]).domain == d
                        && nogood@[j].predicate_type == PredicateType::NotEqual && nogood@[j].rhs
                        == v),
            decreases nogood.len() - i,
        {
            let p = nogood[i];
            if p.domain == d && p.predicate_type == PredicateType::NotEqual && p.rhs as i64 == v {
                return true;
            }
            i = i + 1;
        }
        false
    }

    /// The least and the greatest value that `d` can take under the nogood, or `None` where
    /// it can take none.
    fn value_range(domains: &InitialDomains, nogood: &Vec<Predicate>, d: DomainId) -> (r: Option<
        (i64, i64),
    >)
        requires
            domains.wf(),
            domains.has(d),
        ensures
            r is None ==> forall|v: int| !allowed(*domains, nogood@, d, v),
            r matches Some((l, u)) ==> {
                &&& is_least(*domains, nogood@, d, l as int)
                &&& is_greatest(*domains, nogood@, d, u as int)
                &&& domains.lb(d) <= l <= u <= domains.ub(d)
                &&& forall|v: int|
                    #![trigger allowed(*domains, nogood@, d, v)]
                    l <= v <= u ==> (allowed(*domains, nogood@, d, v) == !excluded(nogood@, d, v))
            },
    {
        proof {
            domains.lemma_wf();
        }
        let (lower, upper) = Self::bounds_for(domains, nogood, d);
        let mut l = lower;
        while l <= upper && Self::is_excluded(nogood, d, l)
            invariant
                lower <= l,
                l == lower || l <= upper + 1,
                upper <= i32::MAX,
                forall|v: int| lower <= v < l ==> excluded(nogood@, d, v),
            decreases upper + 1 - l,
        {
            l = l + 1;
        }
        if l > upper {
            proof {
                assert forall|v: int| !allowed(*domains, nogood@, d, v) by {
                    if lower <= v < l {
                        assert(excluded(nogood@, d, v));
                    }
                }
            }
            return None;
        }
        let mut u = upper;
        while Self::is_excluded(nogood, d, u)
            invariant
                l <= u <= upper,
                !excluded(nogood@, d, l as int),
                forall|v: int| u < v <= upper ==> excluded(nogood@, d, v),
            decreases u - l,
        {
            u = u - 1;
        }
        proof {
            assert(allowed(*domains, nogood@, d, l as int));
            assert(allowed(*domains, nogood@, d, u as int));
            assert forall|v: int| #[trigger] allowed(*domains, nogood@, d, v) implies l <= v by {
                if v < l {
                    assert(excluded(nogood@, d, v));
                }
            }
            assert forall|v: int| #[trigger] allowed(*domains, nogood@, d, v) implies v <= u by {
                if v > u {
                    assert(excluded(nogood@, d, v));
                }
            }
        }
        Some((l, u))
    }

    /// Whether `out` holds `p`.
    fn holds_predicate(out: &Vec<Predicate>, p: Predicate) -> (r: bool)
        ensures
            r == out@.contains(p),
    {
        let mut i: usize = 0;
        while i < out.len()
            invariant
                0 <= i <= out@.len(),
                forall|j: int| 0 <= j < i ==> out@[j] != p,
            decreases out.len() - i,
        {
            if out[i] == p {
                return true;
            }
            i = i + 1;
        }
        false
    }

    /// The minimised form of the predicates over `d`, given the least value `l` and the
    /// greatest value `u` that `d` can take.
    fn domain_form(
        domains: &InitialDomains,
        nogood: &Vec<Predicate>,
        d: DomainId,
        l: i64,
        u: i64,
    ) -> (own: Vec<Predicate>)
        requires
            domains.wf(),
            domains.has(d),
            mentions(nogood@, d),
            is_least(*domains, nogood@, d, l as int),
            is_greatest(*domains, nogood@, d, u as int),
            domains.lb(d) <= l <= u <= domains.ub(d),
            forall|v: int|
                #![trigger allowed(*domains, nogood@, d, v)]
                l <= v <= u ==> (allowed(*domains, nogood@, d, v) == !excluded(nogood@, d, v)),
        ensures
            own@.no_duplicates(),
            forall|q: Predicate| #[trigger]
                own@.contains(q) == (q.domain == d && in_minimised_form(*domains, nogood@, q)),
    {
        proof {
            domains.lemma_wf();
        }
        let (lb, ub) = domains.bounds_of(d);
        let lo = l as i32;
        let hi = u as i32;
        let mut own: Vec<Predicate> = Vec::new();
        if l == u {
            if lb != ub {
                let p = Predicate::equal(d, lo);
                own.push(p);
            }
            proof {
                assert forall|q: Predicate| #[trigger]
                    own@.contains(q) == (q.domain == d && in_minimised_form(*domains, nogood@, q)) by {
                    if lb != ub {
                        lemma_push_contains(Seq::<Predicate>::empty(), (Predicate { domain: d, predicate_type: PredicateType::Equal, rhs: lo }), q);
                        assert(own@ == Seq::<Predicate>::empty().push((Predicate { domain: d, predicate_type: PredicateType::Equal, rhs: lo })));
                    }
                    if q.domain == d && in_minimised_form(*domains, nogood@, q) {
                        lemma_single_value_form(*domains, nogood@, d, l as int, q);
                    }
                }
            }
            return own;
        }
        if l > lb as i64 {
            let ghost before = own@;
            let p = Predicate::lower_bound(d, lo);
            own.push(p);
            proof {
                assert forall|q: Predicate| #[trigger] own@.contains(q) == (q == p) by {
                    lemma_push_contains(before, p, q);
                }
            }
        }
        let ghost with_lower = own@;
        if u < ub as i64 {
            let p = Predicate::upper_bound(d, hi);
            own.push(p);
            proof {
                assert forall|q: Predicate| #[trigger]
                    own@.contains(q) == (with_lower.contains(q) || q == p) by {
                    lemma_push_contains(with_lower, p, q);
                }
                assert(!with_lower.contains(p));
                lemma_push_no_duplicates(with_lower, p);
            }
        }
        let ghost with_bounds = own@;
        proof {
            assert forall|q: Predicate| #[trigger]
                with_bounds.contains(q) == (q.domain == d && q.predicate_type
                    != PredicateType::NotEqual && in_minimised_form(*domains, nogood@, q)) by {
                lemma_bound_form(*domains, nogood@, d, l as int, u as int, q);
            }
        }
        let mut i: usize = 0;
        while i < nogood.len()
            invariant
                0 <= i <= nogood@.len(),
                domains.wf(),
                domains.has(d),
                is_least(*domains, nogood@, d, l as int),
                is_greatest(*domains, nogood@, d, u as int),
                l < u,
                lo == l,
                hi == u,
                own@.no_duplicates(),
                forall|q: Predicate| #[trigger]
                    with_bounds.contains(q) == (q.domain == d && q.predicate_type
                        != PredicateType::NotEqual && in_minimised_form(*domains, nogood@, q)),
                forall|q: Predicate| #[trigger]
                    own@.contains(q) == (with_bounds.contains(q) || (q.domain == d
                        && q.predicate_type == PredicateType::NotEqual && in_minimised_form(
                        *domains,
                        nogood@,
                        q,
                    ) && listed_before(nogood@, i as int, d, q.rhs as int))),
            decreases nogood.len() - i,
        {
            let p = nogood[i];
            let ghost before = own@;
            let between = p.domain == d && p.predicate_type == PredicateType::NotEqual && lo < p.rhs
                && p.rhs < hi;
            if between {
                proof {
                    assert(!allowed(*domains, nogood@, d, p.rhs as int)) by {
                        assert(nogood@[i as int].domain == d);
                    }
                    assert(allowed(*domains, nogood@, d, l as int));
                    assert(allowed(*domains, nogood@, d, u as int));
                    assert(in_minimised_form(*domains, nogood@, p));
                }
                if !Self::holds_predicate(&own, p) {
                    own.push(p);
                    proof {
                        lemma_push_no_duplicates(before, p);
                    }
                }
            }
            proof {
                assert forall|q: Predicate| #[trigger]
                    own@.contains(q) == (with_bounds.contains(q) || (q.domain == d
                        && q.predicate_type == PredicateType::NotEqual && in_minimised_form(
                        *domains,
                        nogood@,
                        q,
                    ) && listed_before(nogood@, i + 1, d, q.rhs as int))) by {
                    lemma_listed_step(nogood@, i as int, d, q.rhs as int);
                    if own@ != before {
                        lemma_push_contains(before, p, q);
                    }
                    if q.domain == d && q.predicate_type == PredicateType::NotEqual
                        && in_minimised_form(*domains, nogood@, q) {
                        lemma_hole_between(*domains, nogood@, d, l as int, u as int, q);
                    }
                }
            }
            i = i + 1;
        }
        proof {
            assert forall|q: Predicate| #[trigger]
                own@.contains(q) == (q.domain == d && in_minimised_form(*domains, nogood@, q)) by {
                if q.domain == d && q.predicate_type == PredicateType::NotEqual
                    && in_minimised_form(*domains, nogood@, q) {
                    lemma_hole_is_listed(*domains, nogood@, d, l as int, u as int, q);
                }
            }
        }
        own
    }

    /// The minimised form of the nogood: the predicates of the minimised form of every
    /// mentioned domain, or the single predicate false where some domain keeps no value.
    pub fn minimised(domains: &InitialDomains, nogood: &Vec<Predicate>) -> (out: Vec<Predicate>)
        requires
            domains.wf(),
            refers_to_known_domains(*domains, nogood@),
        ensures
            is_minimisation_of(*domains, nogood@, out@),
            refers_to_known_domains(*domains, out@),
    {
        let mut out: Vec<Predicate> = Vec::new();
        let mut i: usize = 0;
        while i < nogood.len()
            invariant
                0 <= i <= nogood@.len(),
                domains.wf(),
                refers_to_known_domains(*domains, nogood@),
                out@.no_duplicates(),
                forall|p: Predicate| #[trigger]
                    out@.contains(p) == (mentioned_before(nogood@, i as int, p.domain)
                        && in_minimised_form(*domains, nogood@, p)),
                forall|j: int|
                    0 <= j < i ==> exists|v: int|
                        allowed(*domains, nogood@, (#[trigger] nogood@[j]).domain, v),
            decreases nogood.len() - i,
        {
            let d = nogood[i].domain;
            let mut seen = false;
            let mut j: usize = 0;
            while j < i
                invariant
                    0 <= j <= i < nogood@.len(),
                    d == nogood@[i as int].domain,
                    seen == exists|k: int| 0 <= k < j && (#[trigger] nogood@[k]).domain == d,
                decreases i - j,
            {
                if nogood[j].domain == d {
                    seen = true;
                }
                j = j + 1;
            }
            if !seen {
                proof {
                    assert(domains.has(nogood@[i as int].domain));
                    assert(mentions(nogood@, d));
                }
                match Self::value_range(domains, nogood, d) {
                    None => {
                        let mut conflict: Vec<Predicate> = Vec::new();
                        conflict.push(Predicate::trivially_false());
                        proof {
                            assert(!consistent(*domains, nogood@)) by {
                                assert(mentions(nogood@, d));
                            }
                            assert(conflict@ =~= seq![Predicate::spec_trivially_false()]);
                            lemma_minimisation_refers_to_known_domains(*domains, nogood@, conflict@);
                        }
                        return conflict;
                    },
                    Some((l, u)) => {
                        let ghost before = out@;
                        proof {
                            assert forall|p: Predicate| before.contains(p) implies p.domain != d by {
                                if p.domain == d {
                                    assert(mentioned_before(nogood@, i as int, d));
                                    let k = choose|k: int|
                                        0 <= k < i && (#[trigger] nogood@[k]).domain == d;
                                    assert(nogood@[k].domain == d);
                                }
                            }
                        }
                        let mut own = Self::domain_form(domains, nogood, d, l, u);
                        let ghost own_view = own@;
                        out.append(&mut own);
                        proof {
                            assert forall|p: Predicate| before.contains(p) implies !own_view.contains(
                                p,
                            ) by {}
                            lemma_concat_no_duplicates(before, own_view);
                            assert forall|p: Predicate| #[trigger]
                                out@.contains(p) == (before.contains(p) || (p.domain == d
                                    && in_minimised_form(*domains, nogood@, p))) by {
                                lemma_concat_contains(before, own_view, p);
                            }
                            assert forall|p: Predicate| #[trigger]
                                out@.contains(p) == (mentioned_before(nogood@, i + 1, p.domain)
                                    && in_minimised_form(*domains, nogood@, p)) by {
                                if mentioned_before(nogood@, i + 1, p.domain) && !mentioned_before(
                                    nogood@,
                                    i as int,
                                    p.domain,
                                ) {
                                    let k = choose|k: int|
                                        0 <= k < i + 1 && (#[trigger] nogood@[k]).domain
                                            == p.domain;
                                    assert(k == i);
                                }
                                if mentioned_before(nogood@, i as int, p.domain) {
                                    let k = choose|k: int|
                                        0 <= k < i && (#[trigger] nogood@[k]).domain == p.domain;
                                    assert(mentioned_before(nogood@, i + 1, p.domain));
                                }
                            }
                            assert(allowed(*domains, nogood@, nogood@[i as int].domain, l as int));
                        }
                    },
                }
            } else {
                proof {
                    let k = choose|k: int| 0 <= k < i && (#[trigger] nogood@[k]).domain == d;
                    assert(exists|v: int| allowed(*domains, nogood@, nogood@[k].domain, v));
                    assert forall|p: Predicate| #[trigger]
                        out@.contains(p) == (mentioned_before(nogood@, i + 1, p.domain)
                            && in_minimised_form(*domains, nogood@, p)) by {
                        if mentioned_before(nogood@, i + 1, p.domain) {
                            let k2 = choose|k2: int|
                                0 <= k2 < i + 1 && (#[trigger] nogood@[k2]).domain == p.domain;
                            if k2 == i {
                                assert(nogood@[k].domain == p.domain);
                            }
                            assert(mentioned_before(nogood@, i as int, p.domain));
                        }
                    }
                }
            }
            i = i + 1;
        }
        proof {
            assert forall|d: DomainId| #[trigger]
                mentions(nogood@, d) implies exists|v: int| allowed(*domains, nogood@, d, v) by {
                let k = choose|k: int| 0 <= k < nogood@.len() && (#[trigger] nogood@[k]).domain == d;
                assert(exists|v: int| allowed(*domains, nogood@, nogood@[k].domain, v));
            }
            assert forall|p: Predicate| #[trigger]
                out@.contains(p) == in_minimised_form(*domains, nogood@, p) by {
                if in_minimised_form(*domains, nogood@, p) {
                    let k = choose|k: int|
                        0 <= k < nogood@.len() && (#[trigger] nogood@[k]).domain == p.domain;
                    assert(mentioned_before(nogood@, nogood@.len() as int, p.domain));
                }
            }
            lemma_minimisation_refers_to_known_domains(*domains, nogood@, out@);
        }
        out
    }
}

/// Where `d` can only take `x`, the minimised form holds the equality, unless the initial
/// domain already fixes `d`.
proof fn lemma_single_value_form(
    domains: InitialDomains,
    nogood: Seq<Predicate>,
    d: DomainId,
    x: int,
    q: Predicate,
)
    requires
        is_least(domains, nogood, d, x),
        is_greatest(domains, nogood, d, x),
        q.domain == d,
        in_minimised_form(domains, nogood, q),
    ensures
        q == (Predicate { domain: d, predicate_type: PredicateType::Equal, rhs: q.rhs }),
        q.rhs == x,
        domains.lb(d) != domains.ub(d),
{
    match q.predicate_type {
        PredicateType::LowerBound => {
            assert(allowed(domains, nogood, d, q.rhs as int));
            assert(false);
        },
        PredicateType::UpperBound => {
            assert(allowed(domains, nogood, d, q.rhs as int));
            assert(false);
        },
        PredicateType::Equal => {
            assert(allowed(domains, nogood, d, q.rhs as int));
        },
        PredicateType::NotEqual => {
            let a = choose|v: int| #[trigger] allowed(domains, nogood, d, v) && v < q.rhs;
            let b = choose|v: int| #[trigger] allowed(domains, nogood, d, v) && v > q.rhs;
            assert(false);
        },
    }
}

/// Where `d` takes values from `l` to `u` with `l < u`, the bound predicates of the minimised
/// form are those that the initial domain does not imply.
proof fn lemma_bound_form(
    domains: InitialDomains,
    nogood: Seq<Predicate>,
    d: DomainId,
    l: int,
    u: int,
    q: Predicate,
)
    requires
        mentions(nogood, d),
        is_least(domains, nogood, d, l),
        is_greatest(domains, nogood, d, u),
        l < u,
    ensures
        (q.domain == d && q.predicate_type == PredicateType::LowerBound) ==> (in_minimised_form(
            domains,
            nogood,
            q,
        ) == (q.rhs == l && l > domains.lb(d))),
        (q.domain == d && q.predicate_type == PredicateType::UpperBound) ==> (in_minimised_form(
            domains,
            nogood,
            q,
        ) == (q.rhs == u && u < domains.ub(d))),
        (q.domain == d && q.predicate_type == PredicateType::Equal) ==> !in_minimised_form(
            domains,
            nogood,
            q,
        ),
{
    if q.domain == d {
        let x = q.rhs as int;
        if is_least(domains, nogood, d, x) {
            assert(x == l);
        }
        if is_greatest(domains, nogood, d, x) {
            assert(x == u);
        }
        if q.rhs == l {
            assert(!is_greatest(domains, nogood, d, x)) by {
                assert(allowed(domains, nogood, d, u));
            }
        }
        if q.rhs == u {
            assert(!is_least(domains, nogood, d, x)) by {
                assert(allowed(domains, nogood, d, l));
            }
        }
    }
}

/// A value between `l` and `u` that `d` cannot take is excluded by a predicate of the nogood.
proof fn lemma_hole_is_listed(
    domains: InitialDomains,
    nogood: Seq<Predicate>,
    d: DomainId,
    l: int,
    u: int,
    q: Predicate,
)
    requires
        is_least(domains, nogood, d, l),
        is_greatest(domains, nogood, d, u),
        q.domain == d,
        q.predicate_type == PredicateType::NotEqual,
        in_minimised_form(domains, nogood, q),
        forall|v: int|
            #![trigger allowed(domains, nogood, d, v)]
            l <= v <= u ==> (allowed(domains, nogood, d, v) == !excluded(nogood, d, v)),
    ensures
        listed_before(nogood, nogood.len() as int, d, q.rhs as int),
{
    let a = choose|v: int| #[trigger] allowed(domains, nogood, d, v) && v < q.rhs;
    let b = choose|v: int| #[trigger] allowed(domains, nogood, d, v) && v > q.rhs;
    assert(l <= a);
    assert(b <= u);
    assert(allowed(domains, nogood, d, l));
    assert(allowed(domains, nogood, d, u));
    assert(excluded(nogood, d, q.rhs as int));
}

/// A listed hole strictly between the least and the greatest value is a predicate of the
/// minimised form.
proof fn lemma_hole_between(
    domains: InitialDomains,
    nogood: Seq<Predicate>,
    d: DomainId,
    l: int,
    u: int,
    q: Predicate,
)
    requires
        is_least(domains, nogood, d, l),
        is_greatest(domains, nogood, d, u),
        q.domain == d,
        q.predicate_type == PredicateType::NotEqual,
        in_minimised_form(domains, nogood, q),
    ensures
        l < q.rhs < u,
{
    let a = choose|v: int| #[trigger] allowed(domains, nogood, d, v) && v < q.rhs;
    let b = choose|v: int| #[trigger] allowed(domains, nogood, d, v) && v > q.rhs;
    assert(l <= a);
    assert(b <= u);
}

} // verus!

verus! {

proof fn lemma_least_exists(domains: InitialDomains, nogood: Seq<Predicate>, d: DomainId, v0: int)
    requires
        allowed(domains, nogood, d, v0),
    ensures
        exists|x: int| is_least(domains, nogood, d, x),
    decreases v0 - domains.lb(d),
{
    if forall|v: int| #[trigger] allowed(domains, nogood, d, v) ==> v0 <= v {
        assert(is_least(domains, nogood, d, v0));
    } else {
        let v1 = choose|v: int| #[trigger] allowed(domains, nogood, d, v) && v < v0;
        lemma_least_exists(domains, nogood, d, v1);
    }
}

proof fn lemma_greatest_exists(
    domains: InitialDomains,
    nogood: Seq<Predicate>,
    d: DomainId,
    v0: int,
)
    requires
        allowed(domains, nogood, d, v0),
    ensures
        exists|x: int| is_greatest(domains, nogood, d, x),
    decreases domains.ub(d) - v0,
{
    if forall|v: int| #[trigger] allowed(domains, nogood, d, v) ==> v <= v0 {
        assert(is_greatest(domains, nogood, d, v0));
    } else {
        let v1 = choose|v: int| #[trigger] allowed(domains, nogood, d, v) && v > v0;
        lemma_greatest_exists(domains, nogood, d, v1);
    }
}

/// A value of the initial domain of a mentioned domain is allowed exactly where it satisfies
/// the predicates of the minimised form over that domain.
proof fn lemma_form_of_domain(
    domains: InitialDomains,
    nogood: Seq<Predicate>,
    d: DomainId,
    v: int,
)
    requires
        domains.wf(),
        domains.has(d),
        mentions(nogood, d),
        exists|w: int| allowed(domains, nogood, d, w),
        domains.contains(d, v),
    ensures
        allowed(domains, nogood, d, v) == (forall|q: Predicate|
            q.domain == d && #[trigger] in_minimised_form(domains, nogood, q) ==> q.holds_for(v)),
{
    domains.lemma_wf();
    let w = choose|w: int| allowed(domains, nogood, d, w);
    lemma_least_exists(domains, nogood, d, w);
    lemma_greatest_exists(domains, nogood, d, w);
    let l = choose|x: int| is_least(domains, nogood, d, x);
    let u = choose|x: int| is_greatest(domains, nogood, d, x);
    assert(allowed(domains, nogood, d, l));
    assert(allowed(domains, nogood, d, u));
    if allowed(domains, nogood, d, v) {
        assert forall|q: Predicate|
            q.domain == d && #[trigger] in_minimised_form(domains, nogood, q) implies q.holds_for(
            v,
        ) by {
            match q.predicate_type {
                PredicateType::LowerBound => {},
                PredicateType::UpperBound => {},
                PredicateType::Equal => {},
                PredicateType::NotEqual => {},
            }
        }
    } else {
        if forall|q: Predicate|
            q.domain == d && #[trigger] in_minimised_form(domains, nogood, q) ==> q.holds_for(v) {
            if l == u {
                if domains.lb(d) != domains.ub(d) {
                    let q = Predicate { domain: d, predicate_type: PredicateType::Equal, rhs: l as i32 };
                    assert(in_minimised_form(domains, nogood, q));
                }
            } else {
                assert(!is_greatest(domains, nogood, d, l));
                assert(!is_least(domains, nogood, d, u));
                if l > domains.lb(d) {
                    let q = Predicate {
                        domain: d,
                        predicate_type: PredicateType::LowerBound,
                        rhs: l as i32,
                    };
                    assert(in_minimised_form(domains, nogood, q));
                }
                if u < domains.ub(d) {
                    let q = Predicate {
                        domain: d,
                        predicate_type: PredicateType::UpperBound,
                        rhs: u as i32,
                    };
                    assert(in_minimised_form(domains, nogood, q));
                }
                assert(l < v < u);
                let q = Predicate { domain: d, predicate_type: PredicateType::NotEqual, rhs: v as i32 };
                assert(in_minimised_form(domains, nogood, q));
            }
        }
    }
}

/// The nogood holds under an assignment of the initial domains exactly where every
/// mentioned domain takes an allowed value.
proof fn lemma_nogood_holds(domains: InitialDomains, nogood: Seq<Predicate>, a: DomainAssignment)
    requires
        domains.wf(),
        refers_to_known_domains(domains, nogood),
        domains.admits(a),
    ensures
        conjunction_holds(nogood, a) == (forall|d: DomainId|
            #[trigger] mentions(nogood, d) ==> allowed(domains, nogood, d, a(d))),
{
    if conjunction_holds(nogood, a) {
        assert forall|d: DomainId| #[trigger] mentions(nogood, d) implies allowed(
            domains,
            nogood,
            d,
            a(d),
        ) by {
            let k = choose|k: int| 0 <= k < nogood.len() && (#[trigger] nogood[k]).domain == d;
            assert(domains.has(nogood[k].domain));
            assert(domains.contains(d, a(d)));
            assert forall|i: int|
                0 <= i < nogood.len() && (#[trigger] nogood[i]).domain == d implies nogood[i].holds_for(
                a(d),
            ) by {
                assert(nogood[i].holds(a));
            }
        }
    }
    if forall|d: DomainId| #[trigger] mentions(nogood, d) ==> allowed(domains, nogood, d, a(d)) {
        assert forall|i: int| 0 <= i < nogood.len() implies (#[trigger] nogood[i]).holds(a) by {
            let d = nogood[i].domain;
            assert(mentions(nogood, d));
            assert(allowed(domains, nogood, d, a(d)));
        }
    }
}

/// Minimisation keeps the meaning of the nogood: under every assignment of the initial
/// domains, the minimised form holds exactly where the nogood holds.
pub proof fn lemma_minimised_form_equivalent(
    domains: InitialDomains,
    nogood: Seq<Predicate>,
    out: Seq<Predicate>,
    a: DomainAssignment,
)
    requires
        domains.wf(),
        refers_to_known_domains(domains, nogood),
        domains.admits(a),
        is_minimisation_of(domains, nogood, out),
    ensures
        conjunction_holds(out, a) == conjunction_holds(nogood, a),
{
    domains.lemma_wf();
    lemma_nogood_holds(domains, nogood, a);
    if !consistent(domains, nogood) {
        let d = choose|d: DomainId|
            #[trigger] mentions(nogood, d) && !exists|v: int| allowed(domains, nogood, d, v);
        assert(domains.contains(constant_domain(), a(constant_domain())));
        assert(!out[0].holds(a));
        assert(!allowed(domains, nogood, d, a(d)));
    } else {
        if conjunction_holds(out, a) {
            assert forall|d: DomainId| #[trigger] mentions(nogood, d) implies allowed(
                domains,
                nogood,
                d,
                a(d),
            ) by {
                let k = choose|k: int| 0 <= k < nogood.len() && (#[trigger] nogood[k]).domain == d;
                assert(domains.has(nogood[k].domain));
                assert forall|q: Predicate|
                    q.domain == d && #[trigger] in_minimised_form(
                        domains,
                        nogood,
                        q,
                    ) implies q.holds_for(a(d)) by {
                    assert(out.contains(q));
                    let i = choose|i: int| 0 <= i < out.len() && out[i] == q;
                    assert(out[i].holds(a));
                }
                lemma_form_of_domain(domains, nogood, d, a(d));
            }
        }
        if forall|d: DomainId| #[trigger] mentions(nogood, d) ==> allowed(domains, nogood, d, a(d)) {
            assert forall|i: int| 0 <= i < out.len() implies (#[trigger] out[i]).holds(a) by {
                let q = out[i];
                assert(out.contains(q));
                let d = q.domain;
                assert(mentions(nogood, d));
                let k = choose|k: int| 0 <= k < nogood.len() && (#[trigger] nogood[k]).domain == d;
                assert(domains.has(nogood[k].domain));
                lemma_form_of_domain(domains, nogood, d, a(d));
            }
        }
    }
}

/// Every predicate of a minimisation refers to a known domain.
proof fn lemma_minimisation_refers_to_known_domains(
    domains: InitialDomains,
    nogood: Seq<Predicate>,
    out: Seq<Predicate>,
)
    requires
        domains.wf(),
        refers_to_known_domains(domains, nogood),
        is_minimisation_of(domains, nogood, out),
    ensures
        refers_to_known_domains(domains, out),
{
    domains.lemma_wf();
    if consistent(domains, nogood) {
        assert forall|i: int| 0 <= i < out.len() implies domains.has((#[trigger] out[i]).domain) by {
            assert(out.contains(out[i]));
            assert(mentions(nogood, out[i].domain));
            let k = choose|k: int| 0 <= k < nogood.len() && (#[trigger] nogood[k]).domain == out[i].domain;
            assert(domains.has(nogood[k].domain));
        }
    }
}

/// On a domain that the minimised form of a consistent nogood mentions, the minimised form
/// allows exactly the values that the nogood allows.
proof fn lemma_form_keeps_allowed(
    domains: InitialDomains,
    nogood: Seq<Predicate>,
    out: Seq<Predicate>,
    d: DomainId,
    v: int,
)
    requires
        domains.wf(),
        refers_to_known_domains(domains, nogood),
        consistent(domains, nogood),
        forall|p: Predicate| #[trigger] out.contains(p) == in_minimised_form(domains, nogood, p),
        mentions(out, d),
    ensures
        mentions(nogood, d),
        allowed(domains, out, d, v) == allowed(domains, nogood, d, v),
{
    let k = choose|k: int| 0 <= k < out.len() && (#[trigger] out[k]).domain == d;
    assert(out.contains(out[k]));
    assert(mentions(nogood, d));
    let j = choose|j: int| 0 <= j < nogood.len() && (#[trigger] nogood[j]).domain == d;
    assert(domains.has(nogood[j].domain));
    if domains.contains(d, v) {
        lemma_form_of_domain(domains, nogood, d, v);
        if allowed(domains, out, d, v) {
            assert forall|q: Predicate|
                q.domain == d && #[trigger] in_minimised_form(domains, nogood, q) implies q.holds_for(
                v,
            ) by {
                assert(out.contains(q));
                let i = choose|i: int| 0 <= i < out.len() && out[i] == q;
                assert(out[i].domain == d);
            }
        }
        if allowed(domains, nogood, d, v) {
            assert forall|i: int|
                0 <= i < out.len() && (#[trigger] out[i]).domain == d implies out[i].holds_for(v) by {
                assert(out.contains(out[i]));
            }
        }
    }
}

/// Minimising twice gives what minimising once gave: the minimised form of a nogood is its
/// own minimised form.
pub proof fn lemma_minimising_twice_changes_nothing(
    domains: InitialDomains,
    nogood: Seq<Predicate>,
    once: Seq<Predicate>,
    twice: Seq<Predicate>,
)
    requires
        domains.wf(),
        refers_to_known_domains(domains, nogood),
        is_minimisation_of(domains, nogood, once),
        is_minimisation_of(domains, once, twice),
    ensures
        forall|p: Predicate| #[trigger] twice.contains(p) == once.contains(p),
{
    domains.lemma_wf();
    if consistent(domains, nogood) {
        assert forall|d: DomainId| #[trigger] mentions(once, d) implies exists|v: int|
            allowed(domains, once, d, v) by {
            lemma_form_keeps_allowed(domains, nogood, once, d, 0);
            let w = choose|w: int| allowed(domains, nogood, d, w);
            lemma_form_keeps_allowed(domains, nogood, once, d, w);
        }
        assert(consistent(domains, once));
        assert forall|p: Predicate| #[trigger] twice.contains(p) == once.contains(p) by {
            let d = p.domain;
            if mentions(once, d) {
                assert forall|v: int|
                    #![trigger allowed(domains, once, d, v)]
                    #![trigger allowed(domains, nogood, d, v)]
                    allowed(domains, once, d, v) == allowed(domains, nogood, d, v) by {
                    lemma_form_keeps_allowed(domains, nogood, once, d, v);
                }
                let x = p.rhs as int;
                assert(allowed(domains, once, d, x) == allowed(domains, nogood, d, x));
                assert(is_least(domains, once, d, x) == is_least(domains, nogood, d, x));
                assert(is_greatest(domains, once, d, x) == is_greatest(domains, nogood, d, x));
                assert((exists|v: int| #[trigger] allowed(domains, once, d, v) && v < x) == (exists|
                    v: int,
                | #[trigger] allowed(domains, nogood, d, v) && v < x));
                assert((exists|v: int| #[trigger] allowed(domains, once, d, v) && v > x) == (exists|
                    v: int,
                | #[trigger] allowed(domains, nogood, d, v) && v > x));
                lemma_form_keeps_allowed(domains, nogood, once, d, x);
                assert(in_minimised_form(domains, once, p) == in_minimised_form(domains, nogood, p));
            } else if once.contains(p) {
                let i = choose|i: int| 0 <= i < once.len() && once[i] == p;
                assert(once[i].domain == d);
            }
        }
    } else {
        let f = Predicate::spec_trivially_false();
        assert(once[0] == f);
        assert(mentions(once, constant_domain()));
        assert(!consistent(domains, once)) by {
            if exists|v: int| allowed(domains, once, constant_domain(), v) {
                let v = choose|v: int| allowed(domains, once, constant_domain(), v);
                assert(once[0].holds_for(v));
            }
        }
    }
}

impl NogoodMinimiser for SemanticMinimiser {
    fn minimise(&mut self, domains: &InitialDomains, nogood: &mut Vec<Predicate>)
        ensures
            is_minimisation_of(*domains, old(nogood)@, final(nogood)@),
            refers_to_known_domains(*domains, final(nogood)@),
    {
        let out = Self::minimised(domains, nogood);
        proof {
            assert forall|a: DomainAssignment| domains.admits(a) implies conjunction_holds(
                out@,
                a,
            ) == conjunction_holds(nogood@, a) by {
                lemma_minimised_form_equivalent(*domains, nogood@, out@, a);
            }
        }
        *nogood = out;
    }
}

} // verus!
