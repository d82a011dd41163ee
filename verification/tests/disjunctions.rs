use trace_reconstruction::bits::Bits;
use trace_reconstruction::sat::{Conjunction, Term, TraceClauseIter, TraceDisjunction};

fn bits(values: &[u8]) -> Bits {
    Bits::from_bools(&values.iter().map(|&v| v == 1).collect())
}

fn conj(terms: &[(u32, bool)]) -> Conjunction {
    Conjunction::new(terms.iter().map(|&(id, negated)| Term::new(id, negated)).collect())
}

fn collect(trace: &Bits, message_len: usize) -> Vec<Conjunction> {
    let mut iter = TraceDisjunction::clauses_from_trace(trace, message_len);
    let mut all = Vec::new();
    while let Some(clause) = iter.next() {
        all.push(clause);
    }
    all
}

fn satisfies(message: &[u8], clause: &Conjunction) -> bool {
    clause
        .terms()
        .iter()
        .all(|t| (t.id as usize) < message.len() && (message[t.id as usize] == 1) != t.negated)
}

fn admits(disjunction: &TraceDisjunction, message: &[u8]) -> bool {
    disjunction.clauses().iter().any(|c| satisfies(message, c))
}

fn all_messages(len: usize) -> Vec<Vec<u8>> {
    let mut all = Vec::new();
    for code in 0..(1usize << len) {
        all.push((0..len).map(|i| ((code >> i) & 1) as u8).collect());
    }
    all
}

fn is_subsequence(trace: &[u8], message: &[u8]) -> bool {
    let mut at = 0;
    for &bit in message {
        if at < trace.len() && trace[at] == bit {
            at += 1;
        }
    }
    at == trace.len()
}

#[test]
fn clauses_of_a_trace_follow_the_combinations() {
    let trace = bits(&[1, 0]);
    let all = collect(&trace, 3);
    assert_eq!(
        all,
        vec![
            conj(&[(0, false), (1, true)]),
            conj(&[(0, false), (2, true)]),
            conj(&[(1, false), (2, true)]),
        ]
    );
}

#[test]
fn empty_trace_has_no_clauses() {
    let trace = bits(&[]);
    assert!(collect(&trace, 3).is_empty());
    let disjunction = TraceDisjunction::from_trace(&trace, 3);
    assert!(disjunction.clauses().is_empty());
    assert!(disjunction.is_exhausted());
}

#[test]
fn trace_longer_than_the_message_has_no_clauses() {
    let trace = bits(&[1, 0, 1, 1]);
    assert!(collect(&trace, 3).is_empty());
    assert!(TraceDisjunction::from_trace(&trace, 3).clauses().is_empty());
}

#[test]
fn full_length_trace_has_one_clause() {
    let trace = bits(&[1, 0, 1]);
    let all = collect(&trace, 3);
    assert_eq!(all, vec![conj(&[(0, false), (1, true), (2, false)])]);
}

#[test]
fn iterator_can_be_made_with_new() {
    let trace = bits(&[0]);
    let mut iter = TraceClauseIter::new(&trace, 2);
    assert_eq!(iter.next(), Some(conj(&[(0, true)])));
    assert_eq!(iter.next(), Some(conj(&[(1, true)])));
    assert_eq!(iter.next(), None);
    assert_eq!(iter.next(), None);
}

#[test]
fn from_trace_holds_each_clause_once() {
    let trace = bits(&[1, 1, 0]);
    let disjunction = TraceDisjunction::from_trace(&trace, 5);
    assert_eq!(disjunction.clauses().len(), 10);
    for i in 0..10 {
        for j in 0..i {
            assert_ne!(disjunction.clauses()[i], disjunction.clauses()[j]);
        }
    }
}

#[test]
fn from_trace_admits_the_messages_that_hold_the_trace() {
    let values = [1u8, 0, 1];
    let disjunction = TraceDisjunction::from_trace(&bits(&values), 5);
    for message in all_messages(5) {
        assert_eq!(admits(&disjunction, &message), is_subsequence(&values, &message));
    }
}

#[test]
fn narrowing_keeps_the_merges_that_do_not_contradict() {
    let mut disjunction = TraceDisjunction::from_trace(&bits(&[1]), 2);
    let other = collect(&bits(&[0]), 2);
    disjunction.and(&other);
    assert_eq!(
        disjunction.clauses(),
        &vec![conj(&[(0, true), (1, false)]), conj(&[(0, false), (1, true)])]
    );
    assert!(!disjunction.is_exhausted());
}

#[test]
fn narrowing_intersects_the_admitted_messages() {
    let first = [1u8, 0];
    let second = [0u8, 0, 1];
    let mut disjunction = TraceDisjunction::from_trace(&bits(&first), 4);
    disjunction.and(&collect(&bits(&second), 4));
    for message in all_messages(4) {
        assert_eq!(
            admits(&disjunction, &message),
            is_subsequence(&first, &message) && is_subsequence(&second, &message)
        );
    }
}

#[test]
fn narrowing_by_an_empty_trace_changes_nothing() {
    let mut disjunction = TraceDisjunction::from_trace(&bits(&[1, 0]), 3);
    let before: Vec<String> = disjunction.clauses().iter().map(|c| c.to_text()).collect();
    disjunction.and(&collect(&bits(&[]), 3));
    let after: Vec<String> = disjunction.clauses().iter().map(|c| c.to_text()).collect();
    assert_eq!(before, after);
    assert_eq!(after.len(), 3);
}

#[test]
fn narrowing_by_itself_keeps_the_admitted_messages() {
    let values = [1u8, 0, 0];
    let mut disjunction = TraceDisjunction::from_trace(&bits(&values), 5);
    let same = TraceDisjunction::from_trace(&bits(&values), 5);
    disjunction.and(same.clauses());
    for message in all_messages(5) {
        assert_eq!(admits(&disjunction, &message), is_subsequence(&values, &message));
        assert_eq!(admits(&disjunction, &message), admits(&same, &message));
    }
}

#[test]
fn narrowing_by_a_contradiction_exhausts_the_clauses() {
    let mut disjunction = TraceDisjunction::from_trace(&bits(&[1, 1]), 2);
    disjunction.and(&collect(&bits(&[0, 0]), 2));
    assert!(disjunction.is_exhausted());
    assert!(disjunction.message().is_none());
}

#[test]
fn message_needs_one_clause_that_fixes_every_position() {
    let full = TraceDisjunction::from_trace(&bits(&[1, 0, 1]), 3);
    assert_eq!(full.message().map(|m| m.to_bools()), Some(vec![true, false, true]));

    let partial = TraceDisjunction::from_trace(&bits(&[1, 0]), 2);
    assert_eq!(partial.message().map(|m| m.to_bools()), Some(vec![true, false]));

    let several = TraceDisjunction::from_trace(&bits(&[1, 0]), 3);
    assert!(several.message().is_none());

    let mut one_partial = TraceDisjunction::from_trace(&bits(&[1, 1]), 2);
    one_partial.and(&vec![conj(&[(0, false)])]);
    assert_eq!(one_partial.clauses().len(), 1);
    assert_eq!(one_partial.message().map(|m| m.to_bools()), Some(vec![true, true]));

    let mut gap = TraceDisjunction::from_trace(&bits(&[1]), 3);
    gap.and(&vec![conj(&[(0, false)])]);
    assert!(gap.message().is_none());
}

#[test]
fn text_of_clause_sets() {
    assert_eq!(TraceDisjunction::from_trace(&bits(&[]), 2).to_text(), "[]");
    assert_eq!(
        TraceDisjunction::from_trace(&bits(&[1, 0]), 2).to_text(),
        "[\n    (x0 \u{2227} \u{AC}x1)\n]"
    );
    assert_eq!(
        TraceDisjunction::from_trace(&bits(&[0]), 3).to_text(),
        "[\n    (\u{AC}x0) \u{2228}\n    (\u{AC}x1) \u{2228}\n    (\u{AC}x2)\n]"
    );
}

#[test]
fn exact_engine_reconstructs_an_eight_bit_message() {
    let message = [1u8, 1, 0, 0, 1, 1, 0, 1];
    let message_bits = bits(&message);
    let mut state: u64 = 0x2545_f491_4f6c_dd1d;
    let mut draw = || {
        let mut survives = Vec::new();
        for _ in 0..8 {
            state ^= state << 13;
            state ^= state >> 7;
            state ^= state << 17;
            survives.push(state & 1 == 1);
        }
        trace_reconstruction::trace::trace_of(&message_bits, &survives)
    };
    let mut first = draw();
    while first.len() == 0 {
        first = draw();
    }
    let mut disjunction = TraceDisjunction::from_trace(&first, 8);
    let mut found = disjunction.message();
    let mut traces = 1;
    while found.is_none() {
        assert!(traces < 5000);
        let trace = draw();
        disjunction.and(&collect(&trace, 8));
        assert!(!disjunction.is_exhausted());
        assert!(admits(&disjunction, &message));
        found = disjunction.message();
        traces += 1;
    }
    assert_eq!(found.unwrap().to_bools(), message_bits.to_bools());
}
