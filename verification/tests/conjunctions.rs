use trace_reconstruction::sat::{Conjunction, Term};

fn conj(terms: &[(u32, bool)]) -> Conjunction {
    Conjunction::new(terms.iter().map(|&(id, negated)| Term::new(id, negated)).collect())
}

#[test]
fn term_keeps_its_fields() {
    let term = Term::new(7, true);
    assert_eq!(term.id, 7);
    assert!(term.negated);
    assert_eq!(term, Term::new(7, true));
    assert_ne!(term, Term::new(7, false));
    assert_ne!(term, Term::new(6, true));
}

#[test]
fn conjunction_keeps_its_terms() {
    let c = conj(&[(0, false), (3, true)]);
    assert_eq!(c.terms(), &vec![Term::new(0, false), Term::new(3, true)]);
}

#[test]
fn merge_interleaves_by_position() {
    let a = conj(&[(0, false), (2, true), (5, false)]);
    let b = conj(&[(1, true), (3, false)]);
    let merged = a.merge(&b);
    assert_eq!(
        merged,
        Some(conj(&[(0, false), (1, true), (2, true), (3, false), (5, false)]))
    );
}

#[test]
fn merge_keeps_a_shared_literal_once() {
    let a = conj(&[(0, false), (2, true)]);
    let b = conj(&[(2, true), (4, false)]);
    assert_eq!(a.merge(&b), Some(conj(&[(0, false), (2, true), (4, false)])));
}

#[test]
fn merge_with_opposite_polarity_gives_nothing() {
    let a = conj(&[(0, false), (2, true)]);
    let b = conj(&[(1, false), (2, false)]);
    assert_eq!(a.merge(&b), None);
    assert_eq!(b.merge(&a), None);
}

#[test]
fn merge_is_commutative() {
    let a = conj(&[(1, false), (4, true), (6, true)]);
    let b = conj(&[(0, true), (4, true), (9, false)]);
    assert_eq!(a.merge(&b), b.merge(&a));
    let ids: Vec<u32> = a.merge(&b).unwrap().terms().iter().map(|t| t.id).collect();
    assert_eq!(ids, vec![0, 1, 4, 6, 9]);
}

#[test]
fn merge_is_associative() {
    let a = conj(&[(0, false), (3, true)]);
    let b = conj(&[(1, true), (3, true)]);
    let c = conj(&[(2, false), (5, false)]);
    let left = a.merge(&b).unwrap().merge(&c);
    let right = a.merge(&b.merge(&c).unwrap());
    assert_eq!(left, right);
}

#[test]
fn merge_with_the_empty_conjunction_changes_nothing() {
    let a = conj(&[(2, false), (3, true)]);
    let empty = conj(&[]);
    assert_eq!(a.merge(&empty), Some(conj(&[(2, false), (3, true)])));
    assert_eq!(empty.merge(&a), Some(conj(&[(2, false), (3, true)])));
    assert_eq!(empty.merge(&empty), Some(conj(&[])));
}

#[test]
fn merge_with_itself_changes_nothing() {
    let a = conj(&[(2, false), (3, true)]);
    assert_eq!(a.merge(&a), Some(conj(&[(2, false), (3, true)])));
}

#[test]
fn same_compares_literal_lists() {
    let a = conj(&[(2, false), (3, true)]);
    assert!(a.same(&conj(&[(2, false), (3, true)])));
    assert!(!a.same(&conj(&[(2, false)])));
    assert!(!a.same(&conj(&[(2, false), (3, false)])));
    assert!(!a.same(&conj(&[(2, false), (4, true)])));
}

#[test]
fn text_of_terms_and_conjunctions() {
    assert_eq!(Term::new(3, true).to_text(), "\u{AC}x3");
    assert_eq!(Term::new(0, false).to_text(), "x0");
    assert_eq!(Term::new(4294967295, false).to_text(), "x4294967295");
    assert_eq!(Term::new(120, true).to_text(), "\u{AC}x120");
    assert_eq!(conj(&[]).to_text(), "()");
    assert_eq!(conj(&[(5, false)]).to_text(), "(x5)");
    assert_eq!(
        conj(&[(0, false), (1, true), (10, false)]).to_text(),
        "(x0 \u{2227} \u{AC}x1 \u{2227} x10)"
    );
}
