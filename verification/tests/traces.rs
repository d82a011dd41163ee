use trace_reconstruction::bits::Bits;
use trace_reconstruction::trace::{
    count_occurrences, new_message, push_word_bits, supersequences, trace_of, SupersequenceIter,
};

fn bits(values: &[u8]) -> Bits {
    Bits::from_bools(&values.iter().map(|&v| v == 1).collect())
}

fn candidates(trace: &Bits, message_len: usize) -> Vec<Vec<bool>> {
    let mut iter = supersequences(trace, message_len);
    let mut all = Vec::new();
    while let Some(candidate) = iter.next() {
        all.push(candidate.to_bools());
    }
    all
}

#[test]
fn candidates_put_the_trace_on_the_chosen_places() {
    let all = candidates(&bits(&[1, 1]), 3);
    assert_eq!(
        all,
        vec![
            vec![true, true, false],
            vec![true, false, true],
            vec![false, true, true],
        ]
    );
}

#[test]
fn candidates_of_a_zero_bit_are_all_zero() {
    let all = candidates(&bits(&[0]), 2);
    assert_eq!(all, vec![vec![false, false], vec![false, false]]);
}

#[test]
fn candidates_hold_the_trace() {
    let trace = bits(&[1, 0, 1]);
    let mut iter = SupersequenceIter::new(&trace, 6);
    let mut seen = 0;
    while let Some(candidate) = iter.next() {
        assert_eq!(candidate.len(), 6);
        assert!(count_occurrences(&candidate, &trace) >= 1);
        seen += 1;
    }
    assert_eq!(seen, 20);
}

#[test]
fn degenerate_traces_have_no_candidates() {
    assert!(candidates(&bits(&[]), 4).is_empty());
    assert!(candidates(&bits(&[1, 0, 1]), 2).is_empty());
}

#[test]
fn full_length_trace_is_its_only_candidate() {
    assert_eq!(candidates(&bits(&[0, 1, 1]), 3), vec![vec![false, true, true]]);
}

#[test]
fn new_message_has_the_length_asked_for() {
    for len in [0usize, 1, 10, 63, 64, 65, 130] {
        assert_eq!(new_message(len).len(), len);
    }
}

#[test]
fn word_bits_come_least_significant_first() {
    let mut data = Bits::from_bools(&vec![true]);
    push_word_bits(&mut data, 0b1011, 6);
    assert_eq!(data.to_bools(), vec![true, true, true, false, true, false, false]);
    push_word_bits(&mut data, usize::MAX, 0);
    assert_eq!(data.len(), 7);
    let mut whole = Bits::new();
    push_word_bits(&mut whole, 1usize << (usize::BITS - 1), usize::BITS as usize);
    assert_eq!(whole.len(), usize::BITS as usize);
    for i in 0..(usize::BITS as usize) {
        assert_eq!(whole.get(i), i + 1 == usize::BITS as usize);
    }
}

#[test]
fn trace_keeps_the_surviving_bits_in_order() {
    let message = bits(&[1, 1, 0, 0, 1, 1, 0, 1]);
    let survives = vec![false, true, true, false, false, true, true, true];
    assert_eq!(
        trace_of(&message, &survives).to_bools(),
        vec![true, false, true, false, true]
    );
    assert_eq!(trace_of(&message, &vec![false; 8]).len(), 0);
    assert_eq!(trace_of(&message, &vec![true; 8]).to_bools(), message.to_bools());
    assert_eq!(trace_of(&bits(&[]), &vec![]).len(), 0);
}

#[test]
fn every_trace_is_embedded_in_its_message() {
    let message = bits(&[1, 0, 0, 1, 1]);
    for code in 0..32usize {
        let survives: Vec<bool> = (0..5).map(|i| (code >> i) & 1 == 1).collect();
        let trace = trace_of(&message, &survives);
        assert!(count_occurrences(&message, &trace) >= 1);
    }
}
