use ogr_rust::rulers::generate::{compute_distances, should_accept_candidate};
use ogr_rust::{
    generate_golomb_ruler_improved, generate_golomb_ruler_naive, GenerationError, Ruler,
};
use std::collections::HashSet;

#[test]
fn no_ruler_without_a_mark() {
    assert_eq!(generate_golomb_ruler_naive(0), Err(GenerationError::InvalidOrder));
    assert_eq!(generate_golomb_ruler_improved(0), Err(GenerationError::InvalidOrder));
}

#[test]
fn the_errors_in_words() {
    assert_eq!(GenerationError::InvalidOrder.message(), "Order must be greater than 0!");
    assert_eq!(
        GenerationError::NoCandidate.message(),
        "Implementation Error on behalf of the programmer!"
    );
}

#[test]
fn naive_rulers_are_powers_of_two_less_one() {
    assert_eq!(generate_golomb_ruler_naive(1), Ok(vec![0]));
    assert_eq!(generate_golomb_ruler_naive(2), Ok(vec![0, 1]));
    assert_eq!(generate_golomb_ruler_naive(5), Ok(vec![0, 1, 3, 7, 15]));
    let long = generate_golomb_ruler_naive(127).unwrap();
    assert_eq!(long.len(), 127);
    assert_eq!(long[126], (1i128 << 126) - 1);
}

#[test]
fn improved_rulers() {
    assert_eq!(generate_golomb_ruler_improved(1), Ok(vec![0]));
    assert_eq!(generate_golomb_ruler_improved(2), Ok(vec![0, 1]));
    assert_eq!(generate_golomb_ruler_improved(3), Ok(vec![0, 1, 3]));
    assert_eq!(generate_golomb_ruler_improved(4), Ok(vec![0, 1, 3, 7]));
    assert_eq!(generate_golomb_ruler_improved(5), Ok(vec![0, 1, 3, 7, 12]));
    assert_eq!(generate_golomb_ruler_improved(6), Ok(vec![0, 1, 3, 7, 12, 20]));
}

#[test]
fn generated_rulers_are_golomb_rulers() {
    for order in 1..12u32 {
        let naive = generate_golomb_ruler_naive(order).unwrap();
        assert_eq!(naive.len(), order as usize);
        assert!(Ruler::is_golomb_ruler(&naive[1..]));
        let improved = generate_golomb_ruler_improved(order).unwrap();
        assert_eq!(improved.len(), order as usize);
        assert!(Ruler::is_golomb_ruler(&improved[1..]));
        assert!(improved[improved.len() - 1] <= naive[naive.len() - 1]);
    }
}

#[test]
fn improved_rulers_of_many_marks() {
    let ruler = generate_golomb_ruler_improved(24).unwrap();
    assert_eq!(ruler.len(), 24);
    assert_eq!(&ruler[..7], &[0, 1, 3, 7, 12, 20, 30]);
    assert!(ruler.windows(2).all(|w| w[0] < w[1]));
    assert!(Ruler::is_golomb_ruler(&ruler[1..]));
}

#[test]
fn distances_of_a_sequence() {
    let expected: HashSet<i128> = [1, 2, 3, 4, 6, 7].into_iter().collect();
    assert_eq!(compute_distances(&[0, 1, 3, 7]), expected);
    assert!(compute_distances(&[5]).is_empty());
    assert!(compute_distances(&[]).is_empty());
    let repeated: HashSet<i128> = [1, 2].into_iter().collect();
    assert_eq!(compute_distances(&[0, 1, 2]), repeated);
}

#[test]
fn candidates_are_held_against_the_distances() {
    let prev = [0, 1, 3, 7];
    let distances = compute_distances(&prev);
    // 11 - 7 = 4 is a distance already
    assert!(!should_accept_candidate(11, &distances, &prev, 5));
    assert!(should_accept_candidate(12, &distances, &prev, 5));
    // only the first marks are looked at
    assert!(should_accept_candidate(11, &distances, &prev, 4));
    assert!(should_accept_candidate(11, &distances, &prev, 1));
}
