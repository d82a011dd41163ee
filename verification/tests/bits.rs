use trace_reconstruction::bits::Bits;

#[test]
fn new_bits_are_empty() {
    let bits = Bits::new();
    assert_eq!(bits.len(), 0);
    assert_eq!(bits.to_bools(), Vec::<bool>::new());
}

#[test]
fn pushed_bits_come_back_in_order() {
    let mut bits = Bits::new();
    bits.push(true);
    bits.push(false);
    bits.push(false);
    bits.push(true);
    assert_eq!(bits.len(), 4);
    assert!(bits.get(0));
    assert!(!bits.get(1));
    assert!(!bits.get(2));
    assert!(bits.get(3));
    assert_eq!(bits.to_bools(), vec![true, false, false, true]);
}

#[test]
fn from_bools_and_back() {
    let values = vec![false, true, true, false, true];
    let bits = Bits::from_bools(&values);
    assert_eq!(bits.len(), 5);
    assert_eq!(bits.to_bools(), values);
}

#[test]
fn duplicate_holds_the_same_bits() {
    let bits = Bits::from_bools(&vec![true, true, false]);
    let copy = bits.duplicate();
    assert!(bits.same(&copy));
    assert_eq!(copy.to_bools(), vec![true, true, false]);
}

#[test]
fn same_tells_lengths_and_bits_apart() {
    let a = Bits::from_bools(&vec![true, false]);
    let b = Bits::from_bools(&vec![true, false, false]);
    let c = Bits::from_bools(&vec![true, true]);
    assert!(!a.same(&b));
    assert!(!a.same(&c));
    assert!(a.same(&Bits::from_bools(&vec![true, false])));
}

#[test]
fn long_sequences_cross_word_boundaries() {
    let mut values = Vec::new();
    for i in 0..200usize {
        values.push(i % 3 == 0);
    }
    let bits = Bits::from_bools(&values);
    assert_eq!(bits.len(), 200);
    for i in 0..200usize {
        assert_eq!(bits.get(i), i % 3 == 0);
    }
}
