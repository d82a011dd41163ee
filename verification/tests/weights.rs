use trace_reconstruction::bits::Bits;
use trace_reconstruction::weights::{WeightError, WeightTable};

fn bits(values: &[u8]) -> Bits {
    Bits::from_bools(&values.iter().map(|&v| v == 1).collect())
}

#[test]
fn new_table_is_empty() {
    let table = WeightTable::new();
    assert_eq!(table.len(), 0);
    assert_eq!(table.total(), 0);
    assert!(table.heaviest().is_none());
    assert_eq!(table.weight(&bits(&[1, 0])), 0);
}

#[test]
fn first_trace_brings_in_its_candidates() {
    let mut table = WeightTable::new();
    assert_eq!(table.fold(&bits(&[1, 1]), 3), Ok(()));
    assert_eq!(table.len(), 3);
    assert_eq!(table.weight(&bits(&[1, 1, 0])), 1);
    assert_eq!(table.weight(&bits(&[1, 0, 1])), 1);
    assert_eq!(table.weight(&bits(&[0, 1, 1])), 1);
    assert_eq!(table.weight(&bits(&[1, 1, 1])), 0);
    assert_eq!(table.total(), 3);
}

#[test]
fn candidate_weight_counts_the_embeddings() {
    let mut table = WeightTable::new();
    assert_eq!(table.fold(&bits(&[0]), 3), Ok(()));
    assert_eq!(table.len(), 1);
    assert_eq!(table.weight(&bits(&[0, 0, 0])), 3);
    assert_eq!(table.total(), 3);
}

#[test]
fn later_trace_multiplies_and_evicts() {
    let mut table = WeightTable::new();
    assert_eq!(table.fold(&bits(&[1, 0]), 3), Ok(()));
    assert_eq!(table.weight(&bits(&[1, 0, 0])), 2);
    assert_eq!(table.weight(&bits(&[0, 1, 0])), 1);
    assert_eq!(table.len(), 2);
    assert_eq!(table.fold(&bits(&[0, 0]), 3), Ok(()));
    assert_eq!(table.len(), 2);
    assert_eq!(table.weight(&bits(&[1, 0, 0])), 2);
    assert_eq!(table.weight(&bits(&[0, 1, 0])), 1);
    assert_eq!(table.fold(&bits(&[0, 1]), 3), Ok(()));
    assert_eq!(table.len(), 1);
    assert_eq!(table.weight(&bits(&[1, 0, 0])), 0);
    assert_eq!(table.weight(&bits(&[0, 1, 0])), 1);
    assert_eq!(table.fold(&bits(&[0]), 3), Ok(()));
    assert_eq!(table.weight(&bits(&[0, 1, 0])), 2);
    assert_eq!(table.fold(&bits(&[0, 0]), 3), Ok(()));
    assert_eq!(table.weight(&bits(&[0, 1, 0])), 2);
    assert_eq!(table.fold(&bits(&[0]), 3), Ok(()));
    assert_eq!(table.weight(&bits(&[0, 1, 0])), 4);
    assert_eq!(table.total(), 4);
}

#[test]
fn evicted_candidates_do_not_come_back() {
    let mut table = WeightTable::new();
    assert_eq!(table.fold(&bits(&[1, 1]), 2), Ok(()));
    assert_eq!(table.fold(&bits(&[0]), 2), Ok(()));
    assert_eq!(table.len(), 0);
    assert_eq!(table.fold(&bits(&[1, 1]), 2), Ok(()));
    assert_eq!(table.len(), 0);
    assert_eq!(table.weight(&bits(&[1, 1])), 0);
}

#[test]
fn empty_trace_leaves_the_table_unchanged() {
    let mut fresh = WeightTable::new();
    assert_eq!(fresh.fold(&bits(&[]), 3), Ok(()));
    assert_eq!(fresh.len(), 0);
    assert_eq!(fresh.fold(&bits(&[1, 1]), 3), Ok(()));
    assert_eq!(fresh.len(), 3);

    let mut table = WeightTable::new();
    assert_eq!(table.fold(&bits(&[1, 0]), 3), Ok(()));
    assert_eq!(table.fold(&bits(&[]), 3), Ok(()));
    assert_eq!(table.len(), 2);
    assert_eq!(table.weight(&bits(&[1, 0, 0])), 2);
    assert_eq!(table.weight(&bits(&[0, 1, 0])), 1);
    assert_eq!(table.total(), 3);
}

#[test]
fn overlong_trace_leaves_the_table_unchanged() {
    let mut table = WeightTable::new();
    assert_eq!(table.fold(&bits(&[1, 0]), 3), Ok(()));
    assert_eq!(table.fold(&bits(&[1, 0, 1, 1]), 3), Ok(()));
    assert_eq!(table.len(), 2);
    assert_eq!(table.weight(&bits(&[1, 0, 0])), 2);
}

#[test]
fn heaviest_is_the_first_of_the_largest() {
    let mut table = WeightTable::new();
    assert_eq!(table.fold(&bits(&[1, 0]), 3), Ok(()));
    let (candidate, weight) = table.heaviest().unwrap();
    assert_eq!(candidate.to_bools(), vec![true, false, false]);
    assert_eq!(weight, 2);

    let mut ties = WeightTable::new();
    assert_eq!(ties.fold(&bits(&[1, 1]), 3), Ok(()));
    let (candidate, weight) = ties.heaviest().unwrap();
    assert_eq!(candidate.to_bools(), vec![true, true, false]);
    assert_eq!(weight, 1);
}

#[test]
fn overflow_is_reported_and_changes_nothing() {
    let mut table = WeightTable::new();
    let trace = bits(&[0]);
    assert_eq!(table.fold(&trace, 2), Ok(()));
    assert_eq!(table.weight(&bits(&[0, 0])), 2);
    for _ in 1..(usize::BITS - 1) {
        assert_eq!(table.fold(&trace, 2), Ok(()));
    }
    let before = table.weight(&bits(&[0, 0]));
    assert_eq!(before, 1usize << (usize::BITS - 1));
    assert_eq!(table.fold(&trace, 2), Err(WeightError::Overflow));
    assert_eq!(table.weight(&bits(&[0, 0])), before);
    assert_eq!(table.len(), 1);
    assert_eq!(table.total(), before as u128);
}
