use trace_reconstruction::bits::Bits;
use trace_reconstruction::trace::{
    checked_count_occurrences, count_occurrences, permute_subsequence,
};

fn bits(values: &[u8]) -> Bits {
    Bits::from_bools(&values.iter().map(|&v| v == 1).collect())
}

fn brute_force(sequence: &[u8], subsequence: &[u8]) -> usize {
    if subsequence.is_empty() {
        return 1;
    }
    if sequence.is_empty() {
        return 0;
    }
    let rest = &sequence[1..];
    let mut count = brute_force(rest, subsequence);
    if sequence[0] == subsequence[0] {
        count += brute_force(rest, &subsequence[1..]);
    }
    count
}

#[test]
fn two_zeros_in_the_sample_sequence() {
    let sequence = [1u8, 1, 0, 0, 1, 1, 0, 1];
    let subsequence = [0u8, 0];
    let mut pairs = 0;
    for i in 0..8 {
        for j in (i + 1)..8 {
            if sequence[i] == subsequence[0] && sequence[j] == subsequence[1] {
                pairs += 1;
            }
        }
    }
    assert_eq!(pairs, 3);
    assert_eq!(count_occurrences(&bits(&sequence), &bits(&subsequence)), 3);
}

#[test]
fn count_matches_brute_force_on_all_short_inputs() {
    for len in 0..7usize {
        for code in 0..(1usize << len) {
            let sequence: Vec<u8> = (0..len).map(|i| ((code >> i) & 1) as u8).collect();
            for sub_len in 0..4usize {
                for sub_code in 0..(1usize << sub_len) {
                    let subsequence: Vec<u8> =
                        (0..sub_len).map(|i| ((sub_code >> i) & 1) as u8).collect();
                    assert_eq!(
                        count_occurrences(&bits(&sequence), &bits(&subsequence)),
                        brute_force(&sequence, &subsequence)
                    );
                }
            }
        }
    }
}

#[test]
fn empty_subsequence_is_embedded_once() {
    assert_eq!(count_occurrences(&bits(&[1, 0, 1]), &bits(&[])), 1);
    assert_eq!(count_occurrences(&bits(&[]), &bits(&[])), 1);
}

#[test]
fn longer_subsequence_is_not_embedded() {
    assert_eq!(count_occurrences(&bits(&[1, 0]), &bits(&[1, 0, 1])), 0);
    assert_eq!(count_occurrences(&bits(&[]), &bits(&[1])), 0);
}

#[test]
fn missing_bit_gives_no_embedding() {
    assert_eq!(count_occurrences(&bits(&[1, 1, 1]), &bits(&[1, 0])), 0);
}

#[test]
fn all_ones_count_as_a_binomial() {
    assert_eq!(count_occurrences(&bits(&[1; 10]), &bits(&[1; 4])), 210);
    assert_eq!(checked_count_occurrences(&bits(&[1; 10]), &bits(&[1; 4])), Some(210));
}

#[test]
fn cursors_move_through_the_embeddings_in_order() {
    let sequence = bits(&[1, 1, 0, 0, 1, 1, 0, 1]);
    let subsequence = bits(&[0, 0]);
    let mut positions = vec![2usize, 3];
    assert!(permute_subsequence(&sequence, &subsequence, &mut positions, 1, 8));
    assert_eq!(positions, vec![2, 6]);
    assert!(permute_subsequence(&sequence, &subsequence, &mut positions, 1, 8));
    assert_eq!(positions, vec![3, 6]);
    assert!(!permute_subsequence(&sequence, &subsequence, &mut positions, 1, 8));
}

#[test]
fn cursors_retreat_past_a_cursor_that_cannot_settle() {
    let sequence = bits(&[1, 0, 1, 1, 0]);
    let subsequence = bits(&[1, 0]);
    let mut positions = vec![0usize, 1];
    assert!(permute_subsequence(&sequence, &subsequence, &mut positions, 1, 5));
    assert_eq!(positions, vec![0, 4]);
    assert!(permute_subsequence(&sequence, &subsequence, &mut positions, 1, 5));
    assert_eq!(positions, vec![2, 4]);
    assert!(permute_subsequence(&sequence, &subsequence, &mut positions, 1, 5));
    assert_eq!(positions, vec![3, 4]);
    assert!(!permute_subsequence(&sequence, &subsequence, &mut positions, 1, 5));
}

#[test]
fn cursors_beyond_the_given_one_stay() {
    let sequence = bits(&[1, 1, 1, 0]);
    let subsequence = bits(&[1, 0]);
    let mut positions = vec![0usize, 3];
    assert!(permute_subsequence(&sequence, &subsequence, &mut positions, 0, 3));
    assert_eq!(positions, vec![1, 3]);
    assert!(permute_subsequence(&sequence, &subsequence, &mut positions, 0, 3));
    assert_eq!(positions, vec![2, 3]);
    assert!(!permute_subsequence(&sequence, &subsequence, &mut positions, 0, 3));
    assert_eq!(positions[1], 3);
}
