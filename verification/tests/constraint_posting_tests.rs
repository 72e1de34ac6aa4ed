use implementation::constraints::all_different::all_different;
use implementation::constraints::circuit::circuit;
use implementation::constraints::posting::{ConstraintTag, Literal, Posting, Propagation};
use implementation::predicates::DomainId;
use implementation::propagators::circuit::CircuitExplanationType;

fn d(id: u32) -> DomainId {
    DomainId { id }
}

/// The pair of a not-equals posting, or `None` for any other posting.
fn pair(posting: &Posting<DomainId>) -> Option<(u32, u32)> {
    match &posting.propagation {
        Propagation::BinaryNotEquals(c) => {
            assert!(!c.conflict_detection_only);
            Some((c.a.id, c.b.id))
        }
        _ => None,
    }
}

#[test]
fn all_different_decomposes_into_every_pair_in_order() {
    let tag = ConstraintTag { id: 4 };
    let postings = all_different(vec![d(1), d(2), d(3)], tag, false, true).post();
    let pairs: Vec<Option<(u32, u32)>> = postings.iter().map(pair).collect();
    assert_eq!(pairs, vec![Some((1, 2)), Some((1, 3)), Some((2, 3))]);
    for posting in &postings {
        assert!(posting.implied_by.is_none());
        match &posting.propagation {
            Propagation::BinaryNotEquals(c) => assert_eq!(c.constraint_tag, tag),
            _ => panic!("expected a not-equals propagator"),
        }
    }
}

#[test]
fn all_different_without_decomposition_posts_one_propagator() {
    let tag = ConstraintTag { id: 2 };
    let postings = all_different(vec![d(1), d(2), d(3)], tag, true, false).post();
    assert_eq!(postings.len(), 1);
    assert!(postings[0].implied_by.is_none());
    match &postings[0].propagation {
        Propagation::AllDifferent(c) => {
            assert_eq!(c.x, vec![d(1), d(2), d(3)]);
            assert_eq!(c.constraint_tag, tag);
            assert!(c.conflict_detection_only);
        }
        _ => panic!("expected the all-different propagator"),
    }
}

#[test]
fn all_different_implied_by_a_literal() {
    let tag = ConstraintTag { id: 2 };
    let literal = Literal { domain: d(9) };
    let decomposed = all_different(vec![d(1), d(2)], tag, false, true).implied_by(literal);
    assert_eq!(decomposed.len(), 1);
    assert_eq!(pair(&decomposed[0]), Some((1, 2)));
    assert_eq!(decomposed[0].implied_by, Some(literal));

    let whole = all_different(vec![d(1), d(2)], tag, false, false).implied_by(literal);
    assert_eq!(whole.len(), 1);
    assert_eq!(whole[0].implied_by, Some(literal));
    assert!(matches!(whole[0].propagation, Propagation::AllDifferent(_)));
}

#[test]
fn all_different_of_one_variable_decomposes_into_nothing() {
    let postings = all_different(vec![d(1)], ConstraintTag { id: 1 }, false, true).post();
    assert!(postings.is_empty());
}

#[test]
fn circuit_posts_distinct_successors_then_the_circuit() {
    let tag = ConstraintTag { id: 7 };
    let postings =
        circuit(vec![d(1), d(2), d(3)], tag, false, CircuitExplanationType::Indirect).post();
    assert_eq!(postings.len(), 4);
    let pairs: Vec<Option<(u32, u32)>> = postings[..3].iter().map(pair).collect();
    assert_eq!(pairs, vec![Some((1, 2)), Some((1, 3)), Some((2, 3))]);
    match &postings[3].propagation {
        Propagation::Circuit(c) => {
            assert_eq!(c.successors, vec![d(1), d(2), d(3)]);
            assert_eq!(c.constraint_tag, tag);
            assert!(!c.conflict_detection_only);
            assert_eq!(c.explanation_type, CircuitExplanationType::Indirect);
        }
        _ => panic!("expected the circuit propagator"),
    }
    assert!(postings.iter().all(|p| p.implied_by.is_none()));
}
