use implementation::conflict_analysis::SemanticMinimiser;
use implementation::conflict_resolving::NogoodMinimiser;
use implementation::predicates::{DomainId, InitialDomains, Predicate};

fn ge(d: DomainId, v: i32) -> Predicate {
    Predicate::lower_bound(d, v)
}

fn le(d: DomainId, v: i32) -> Predicate {
    Predicate::upper_bound(d, v)
}

fn ne(d: DomainId, v: i32) -> Predicate {
    Predicate::not_equal(d, v)
}

fn eq(d: DomainId, v: i32) -> Predicate {
    Predicate::equal(d, v)
}

/// Compares two conjunctions as sets of predicates.
fn same_conjunction(a: &[Predicate], b: &[Predicate]) -> bool {
    let mut a = a.to_vec();
    let mut b = b.to_vec();
    a.sort();
    a.dedup();
    b.sort();
    b.dedup();
    a == b
}

#[test]
fn trivial_nogood() {
    let mut p = SemanticMinimiser::new();
    let mut domains = InitialDomains::new();
    let domain_id = domains.new_domain(0, 10);
    let mut nogood: Vec<Predicate> = vec![ge(domain_id, 0), le(domain_id, 10)];

    p.minimise(&domains, &mut nogood);

    assert!(nogood.is_empty());
}

#[test]
fn trivial_conflict_bounds() {
    let mut p = SemanticMinimiser::new();
    let mut domains = InitialDomains::new();
    let domain_id = domains.new_domain(0, 10);
    let mut nogood: Vec<Predicate> = vec![ge(domain_id, 5), le(domain_id, 4)];

    p.minimise(&domains, &mut nogood);

    assert_eq!(nogood.len(), 1);
    assert_eq!(nogood[0], Predicate::trivially_false());
}

#[test]
fn trivial_conflict_holes() {
    let mut p = SemanticMinimiser::new();
    let mut domains = InitialDomains::new();
    let domain_id = domains.new_domain(0, 10);
    let mut nogood: Vec<Predicate> =
        vec![ne(domain_id, 5), ge(domain_id, 5), le(domain_id, 5)];

    p.minimise(&domains, &mut nogood);

    assert_eq!(nogood.len(), 1);
    assert_eq!(nogood[0], Predicate::trivially_false());
}

#[test]
fn trivial_conflict_assignment() {
    let mut p = SemanticMinimiser::new();
    let mut domains = InitialDomains::new();
    let domain_id = domains.new_domain(0, 10);
    let mut nogood: Vec<Predicate> = vec![ne(domain_id, 5), eq(domain_id, 5)];

    p.minimise(&domains, &mut nogood);

    assert_eq!(nogood.len(), 1);
    assert_eq!(nogood[0], Predicate::trivially_false());
}

#[test]
fn trivial_conflict_bounds_reset() {
    let mut p = SemanticMinimiser::new();
    let mut domains = InitialDomains::new();
    let domain_id = domains.new_domain(0, 10);
    let mut nogood: Vec<Predicate> = vec![ne(domain_id, 5), eq(domain_id, 5)];

    p.minimise(&domains, &mut nogood);

    let mut other = Vec::default();
    p.minimise(&domains, &mut other);

    assert!(other.is_empty());
}

#[test]
fn simple_bound1() {
    let mut p = SemanticMinimiser::new();
    let mut domains = InitialDomains::new();
    let domain_0 = domains.new_domain(0, 10);
    let domain_1 = domains.new_domain(0, 5);

    let mut nogood: Vec<Predicate> =
        vec![ge(domain_0, 5), le(domain_0, 9), ge(domain_1, 0), le(domain_1, 4)];

    p.minimise(&domains, &mut nogood);

    assert_eq!(nogood.len(), 3);
    assert!(same_conjunction(
        &nogood,
        &[ge(domain_0, 5), le(domain_0, 9), le(domain_1, 4)]
    ));
}

#[test]
fn simple_bound2() {
    let mut p = SemanticMinimiser::new();
    let mut domains = InitialDomains::new();
    let domain_0 = domains.new_domain(0, 10);
    let domain_1 = domains.new_domain(0, 5);

    let mut nogood = vec![
        ge(domain_0, 5),
        le(domain_0, 9),
        ge(domain_1, 0),
        le(domain_1, 4),
        ne(domain_0, 7),
    ];

    p.minimise(&domains, &mut nogood);

    assert_eq!(nogood.len(), 4);
    assert!(same_conjunction(
        &nogood,
        &[ge(domain_0, 5), le(domain_0, 9), le(domain_1, 4), ne(domain_0, 7)]
    ));
}

#[test]
fn simple_bound3() {
    let mut p = SemanticMinimiser::new();
    let mut domains = InitialDomains::new();
    let domain_0 = domains.new_domain(0, 10);
    let domain_1 = domains.new_domain(0, 5);

    let mut nogood = vec![
        ge(domain_0, 5),
        le(domain_0, 9),
        ge(domain_1, 0),
        le(domain_1, 4),
        ne(domain_0, 7),
        ne(domain_0, 7),
        ne(domain_0, 8),
        ne(domain_0, 6),
    ];

    p.minimise(&domains, &mut nogood);

    assert_eq!(nogood.len(), 6);
    assert!(same_conjunction(
        &nogood,
        &[
            ge(domain_0, 5),
            le(domain_0, 9),
            le(domain_1, 4),
            ne(domain_0, 7),
            ne(domain_0, 6),
            ne(domain_0, 8),
        ]
    ));
}

#[test]
fn simple_assign() {
    let mut p = SemanticMinimiser::new();
    let mut domains = InitialDomains::new();
    let domain_0 = domains.new_domain(0, 10);
    let domain_1 = domains.new_domain(0, 5);

    let mut nogood = vec![
        ge(domain_0, 5),
        le(domain_0, 9),
        ge(domain_1, 0),
        le(domain_1, 4),
        ne(domain_0, 7),
        ne(domain_0, 7),
        ne(domain_0, 6),
        eq(domain_0, 5),
        ne(domain_0, 7),
    ];

    p.minimise(&domains, &mut nogood);

    assert_eq!(nogood.len(), 2);
    assert!(same_conjunction(&nogood, &[eq(domain_0, 5), le(domain_1, 4)]));
}

#[test]
fn simple_lb_override1() {
    let mut p = SemanticMinimiser::new();
    let mut domains = InitialDomains::new();
    let domain_0 = domains.new_domain(0, 10);

    let mut nogood = vec![ge(domain_0, 2), ge(domain_0, 1), ge(domain_0, 5)];

    p.minimise(&domains, &mut nogood);

    assert_eq!(nogood.len(), 1);
    assert_eq!(nogood[0], ge(domain_0, 5));
}

#[test]
fn hole_lb_override() {
    let mut p = SemanticMinimiser::new();
    let mut domains = InitialDomains::new();
    let domain_0 = domains.new_domain(0, 10);

    let mut nogood = vec![ne(domain_0, 2), ne(domain_0, 3), ge(domain_0, 5), ge(domain_0, 1)];

    p.minimise(&domains, &mut nogood);

    assert_eq!(nogood.len(), 1);
    assert!(same_conjunction(&nogood, &[ge(domain_0, 5)]));
}

#[test]
fn hole_push_lb() {
    let mut p = SemanticMinimiser::new();
    let mut domains = InitialDomains::new();
    let domain_0 = domains.new_domain(0, 10);

    let mut nogood = vec![ne(domain_0, 2), ne(domain_0, 3), ge(domain_0, 1), ne(domain_0, 1)];

    p.minimise(&domains, &mut nogood);

    assert_eq!(nogood.len(), 1);
    assert_eq!(nogood[0], ge(domain_0, 4));
}

#[test]
fn upper_bound_pushed_down_by_holes() {
    let mut p = SemanticMinimiser::new();
    let mut domains = InitialDomains::new();
    let domain_0 = domains.new_domain(0, 10);

    let mut nogood = vec![ne(domain_0, 10), ne(domain_0, 9), le(domain_0, 10), ne(domain_0, 4)];

    p.minimise(&domains, &mut nogood);

    assert!(same_conjunction(&nogood, &[le(domain_0, 8), ne(domain_0, 4)]));
}

#[test]
fn value_outside_initial_domain_is_a_conflict() {
    let mut p = SemanticMinimiser::new();
    let mut domains = InitialDomains::new();
    let domain_0 = domains.new_domain(0, 10);

    let mut nogood = vec![eq(domain_0, 11)];

    p.minimise(&domains, &mut nogood);

    assert_eq!(nogood, vec![Predicate::trivially_false()]);
}

#[test]
fn holes_outside_the_bounds_are_dropped() {
    let mut p = SemanticMinimiser::new();
    let mut domains = InitialDomains::new();
    let domain_0 = domains.new_domain(0, 10);

    let mut nogood = vec![ne(domain_0, 20), ge(domain_0, 3), ne(domain_0, 1), ne(domain_0, 6)];

    p.minimise(&domains, &mut nogood);

    assert!(same_conjunction(&nogood, &[ge(domain_0, 3), ne(domain_0, 6)]));
}

#[test]
fn equality_with_fixed_initial_domain_is_dropped() {
    let mut p = SemanticMinimiser::new();
    let mut domains = InitialDomains::new();
    let domain_0 = domains.new_domain(3, 3);
    let domain_1 = domains.new_domain(0, 4);

    let mut nogood = vec![eq(domain_0, 3), ge(domain_1, 2), le(domain_1, 2)];

    p.minimise(&domains, &mut nogood);

    assert!(same_conjunction(&nogood, &[eq(domain_1, 2)]));
}

#[test]
fn trivially_true_is_dropped_and_trivially_false_stays() {
    let mut p = SemanticMinimiser::new();
    let domains = InitialDomains::new();

    let mut nogood = vec![Predicate::trivially_true()];
    p.minimise(&domains, &mut nogood);
    assert!(nogood.is_empty());

    let mut nogood = vec![Predicate::trivially_false()];
    p.minimise(&domains, &mut nogood);
    assert_eq!(nogood, vec![Predicate::trivially_false()]);
}

#[test]
fn minimised_nogood_holds_exactly_where_the_nogood_holds() {
    let mut p = SemanticMinimiser::new();
    let mut domains = InitialDomains::new();
    let d = domains.new_domain(0, 10);
    let given = vec![ge(d, 2), ne(d, 2), ne(d, 5), le(d, 7), ne(d, 7), ge(d, 1)];
    let mut nogood = given.clone();

    p.minimise(&domains, &mut nogood);

    let holds = |conj: &[Predicate], v: i32| {
        conj.iter().all(|q| match q {
            q if q.domain == d => match q.predicate_type {
                implementation::predicates::PredicateType::LowerBound => v >= q.rhs,
                implementation::predicates::PredicateType::UpperBound => v <= q.rhs,
                implementation::predicates::PredicateType::NotEqual => v != q.rhs,
                implementation::predicates::PredicateType::Equal => v == q.rhs,
            },
            _ => true,
        })
    };
    for v in 0..=10 {
        assert_eq!(holds(&nogood, v), holds(&given, v), "value {v}");
    }
    assert!(same_conjunction(&nogood, &[ge(d, 3), le(d, 6), ne(d, 5)]));
}

#[test]
fn minimising_twice_changes_nothing() {
    let mut p = SemanticMinimiser::new();
    let mut domains = InitialDomains::new();
    let x = domains.new_domain(0, 10);
    let y = domains.new_domain(-5, 5);
    let mut nogood = vec![ge(x, 2), ne(x, 4), le(x, 8), ne(x, 8), ne(y, 0), le(y, 5), ge(y, -1)];

    p.minimise(&domains, &mut nogood);
    let once = nogood.clone();
    p.minimise(&domains, &mut nogood);

    assert!(same_conjunction(&nogood, &once));
    assert!(same_conjunction(&once, &[ge(x, 2), le(x, 7), ne(x, 4), ge(y, -1), ne(y, 0)]));
}

#[test]
fn minimising_a_conflict_twice_keeps_false() {
    let mut p = SemanticMinimiser::new();
    let mut domains = InitialDomains::new();
    let x = domains.new_domain(0, 10);
    let mut nogood = vec![ge(x, 6), le(x, 5)];

    p.minimise(&domains, &mut nogood);
    p.minimise(&domains, &mut nogood);

    assert_eq!(nogood, vec![Predicate::trivially_false()]);
}
