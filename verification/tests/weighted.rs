use trace_reconstruction::bits::Bits;
use trace_reconstruction::sat::{Conjunction, Term};
use trace_reconstruction::weighted::WeightedDisjunction;
use trace_reconstruction::weights::WeightError;

fn bits(values: &[u8]) -> Bits {
    Bits::from_bools(&values.iter().map(|&v| v == 1).collect())
}

fn conj(terms: &[(u32, bool)]) -> Conjunction {
    Conjunction::new(terms.iter().map(|&(id, negated)| Term::new(id, negated)).collect())
}

#[test]
fn weighted_clauses_of_a_trace_weigh_one_each() {
    let disjunction = WeightedDisjunction::from_trace(&bits(&[1, 0]), 3);
    assert_eq!(
        disjunction.clauses(),
        &vec![
            conj(&[(0, false), (1, true)]),
            conj(&[(0, false), (2, true)]),
            conj(&[(1, false), (2, true)]),
        ]
    );
    assert_eq!(disjunction.weights(), &vec![1, 1, 1]);
    assert_eq!(disjunction.total(), 3);
}

#[test]
fn weighted_degenerate_traces_have_no_clauses() {
    assert!(WeightedDisjunction::from_trace(&bits(&[]), 3).clauses().is_empty());
    assert!(WeightedDisjunction::from_trace(&bits(&[1, 1, 1]), 2).clauses().is_empty());
    assert!(WeightedDisjunction::from_trace(&bits(&[]), 3).heaviest().is_none());
}

#[test]
fn weighted_narrowing_multiplies_and_adds_up() {
    let mut disjunction = WeightedDisjunction::from_trace(&bits(&[1]), 2);
    let other = WeightedDisjunction::from_trace(&bits(&[1]), 2);
    assert_eq!(disjunction.and(&other), Ok(()));
    assert_eq!(
        disjunction.clauses(),
        &vec![conj(&[(0, false)]), conj(&[(0, false), (1, false)]), conj(&[(1, false)])]
    );
    assert_eq!(disjunction.weights(), &vec![1, 2, 1]);
    assert_eq!(disjunction.total(), 4);
    assert_eq!(disjunction.heaviest(), Some(1));

    assert_eq!(disjunction.and(&other), Ok(()));
    assert_eq!(
        disjunction.clauses(),
        &vec![conj(&[(0, false)]), conj(&[(0, false), (1, false)]), conj(&[(1, false)])]
    );
    assert_eq!(disjunction.weights(), &vec![1, 6, 1]);
}

#[test]
fn weighted_narrowing_drops_contradictions() {
    let mut disjunction = WeightedDisjunction::from_trace(&bits(&[1]), 2);
    let other = WeightedDisjunction::from_trace(&bits(&[0]), 2);
    assert_eq!(disjunction.and(&other), Ok(()));
    assert_eq!(
        disjunction.clauses(),
        &vec![conj(&[(0, false), (1, true)]), conj(&[(0, true), (1, false)])]
    );
    assert_eq!(disjunction.weights(), &vec![1, 1]);

    let mut all_ones = WeightedDisjunction::from_trace(&bits(&[1, 1]), 2);
    let all_zeros = WeightedDisjunction::from_trace(&bits(&[0, 0]), 2);
    assert_eq!(all_ones.and(&all_zeros), Ok(()));
    assert!(all_ones.clauses().is_empty());
    assert_eq!(all_ones.total(), 0);
}

#[test]
fn weighted_narrowing_by_an_empty_trace_changes_nothing() {
    let mut disjunction = WeightedDisjunction::from_trace(&bits(&[1]), 2);
    let other = WeightedDisjunction::from_trace(&bits(&[1]), 2);
    assert_eq!(disjunction.and(&other), Ok(()));
    let empty = WeightedDisjunction::from_trace(&bits(&[]), 2);
    assert_eq!(disjunction.and(&empty), Ok(()));
    assert_eq!(disjunction.weights(), &vec![1, 2, 1]);
    assert_eq!(disjunction.clauses().len(), 3);
}

#[test]
fn weight_of_a_candidate_sums_every_clause_it_satisfies() {
    let mut disjunction = WeightedDisjunction::from_trace(&bits(&[1]), 2);
    let other = WeightedDisjunction::from_trace(&bits(&[1]), 2);
    assert_eq!(disjunction.and(&other), Ok(()));
    assert_eq!(disjunction.weight(&bits(&[1, 1])), 4);
    assert_eq!(disjunction.weight(&bits(&[1, 0])), 1);
    assert_eq!(disjunction.weight(&bits(&[0, 1])), 1);
    assert_eq!(disjunction.weight(&bits(&[0, 0])), 0);
    assert_eq!(disjunction.weight(&bits(&[1])), 1);
    assert_eq!(disjunction.weight(&bits(&[])), 0);
}

#[test]
fn weighted_overflow_is_reported_and_changes_nothing() {
    let mut disjunction = WeightedDisjunction::from_trace(&bits(&[1]), 2);
    let other = WeightedDisjunction::from_trace(&bits(&[1]), 2);
    let mut steps = 0;
    let mut before = disjunction.weights().clone();
    let result = loop {
        let result = disjunction.and(&other);
        if result.is_err() {
            break result;
        }
        before = disjunction.weights().clone();
        steps += 1;
        assert!(steps <= usize::BITS);
    };
    assert_eq!(result, Err(WeightError::Overflow));
    assert_eq!(steps, usize::BITS - 1);
    assert_eq!(disjunction.weights(), &before);
    assert_eq!(before[1], usize::MAX - 1);
    assert_eq!(disjunction.clauses().len(), 3);
}
