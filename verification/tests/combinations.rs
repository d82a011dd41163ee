use trace_reconstruction::trace::next_combination;

fn enumerate(bound: usize, k: usize) -> Vec<Vec<usize>> {
    let mut all = Vec::new();
    if k == 0 || k > bound {
        return all;
    }
    let mut set: Vec<usize> = (0..k).collect();
    loop {
        all.push(set.clone());
        if !next_combination(&mut set, bound) {
            break;
        }
    }
    all
}

fn binomial(n: usize, k: usize) -> usize {
    if k == 0 {
        1
    } else if n == 0 {
        0
    } else {
        binomial(n - 1, k - 1) + binomial(n - 1, k)
    }
}

#[test]
fn three_out_of_five_in_lexicographic_order() {
    let all = enumerate(5, 3);
    let expected: Vec<Vec<usize>> = vec![
        vec![0, 1, 2],
        vec![0, 1, 3],
        vec![0, 1, 4],
        vec![0, 2, 3],
        vec![0, 2, 4],
        vec![0, 3, 4],
        vec![1, 2, 3],
        vec![1, 2, 4],
        vec![1, 3, 4],
        vec![2, 3, 4],
    ];
    assert_eq!(all, expected);
}

#[test]
fn enumeration_has_binomial_many_strictly_increasing_members() {
    for bound in 1..9usize {
        for k in 1..=bound {
            let all = enumerate(bound, k);
            assert_eq!(all.len(), binomial(bound, k));
            for c in &all {
                assert_eq!(c.len(), k);
                for i in 1..k {
                    assert!(c[i - 1] < c[i]);
                }
                assert!(c[k - 1] < bound);
            }
            for i in 1..all.len() {
                assert!(all[i - 1] < all[i]);
            }
        }
    }
}

#[test]
fn full_size_has_the_identity_only() {
    let all = enumerate(4, 4);
    assert_eq!(all, vec![vec![0, 1, 2, 3]]);
}

#[test]
fn single_number_counts_up_to_the_bound() {
    let mut set = vec![0usize];
    assert!(next_combination(&mut set, 3));
    assert_eq!(set, vec![1]);
    assert!(next_combination(&mut set, 3));
    assert_eq!(set, vec![2]);
    assert!(!next_combination(&mut set, 3));
    assert_eq!(set, vec![2]);
}

#[test]
fn empty_set_has_no_next_combination() {
    let mut set: Vec<usize> = Vec::new();
    assert!(!next_combination(&mut set, 7));
    assert!(set.is_empty());
}

#[test]
fn carry_resets_the_places_behind_the_pivot() {
    let mut set = vec![0usize, 4, 5];
    assert!(next_combination(&mut set, 6));
    assert_eq!(set, vec![1, 2, 3]);
}

#[test]
fn last_combination_is_left_as_it_was() {
    let mut set = vec![3usize, 4, 5];
    assert!(!next_combination(&mut set, 6));
    assert_eq!(set, vec![3, 4, 5]);
}
