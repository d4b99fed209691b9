use ogr_rust::{
    enumerate_golomb_rulers, enumerate_golomb_rulers_depth,
    enumerate_golomb_rulers_depth_with_length, enumerate_golomb_rulers_pruned,
    enumerate_golomb_rulers_pruned_with_length, enumerate_golomb_rulers_with_length,
    enumerate_pruned_rulers, enumerate_rulers, enumerate_rulers_with_length,
    enumerate_rulers_with_order, GolombIterationError, GolombRuler, GolombRulerDepthIterator,
    GolombRulerPrunedIterator, RulerIterator,
};
use std::collections::HashSet;

fn rulers(marks: &[&[i128]]) -> Vec<GolombRuler> {
    marks.iter().map(|m| GolombRuler::new(m)).collect()
}

fn binomial(n: usize, k: usize) -> usize {
    if k > n {
        return 0;
    }
    let mut c = 1;
    for i in 0..k {
        c = c * (n - i) / (i + 1);
    }
    c
}

#[test]
fn two_marks_make_one_ruler() {
    assert_eq!(enumerate_pruned_rulers(2, 3), rulers(&[&[3]]));
    assert_eq!(enumerate_pruned_rulers(2, 3)[0].to_string(), "[0, 3]");
    assert_eq!(enumerate_pruned_rulers(2, 1), rulers(&[&[1]]));
    assert_eq!(enumerate_pruned_rulers(2, 0), rulers(&[&[0]]));
}

#[test]
fn rulers_of_length_three() {
    let all = enumerate_rulers_with_length(3);
    assert_eq!(all, rulers(&[&[3], &[2, 3], &[1, 3], &[1, 2, 3]]));
    let orders: HashSet<usize> = all.iter().map(|r| r.order()).collect();
    assert_eq!(orders, [2, 3, 4].into_iter().collect());
}

#[test]
fn the_shortest_rulers() {
    assert_eq!(enumerate_rulers_with_length(0), rulers(&[&[]]));
    assert_eq!(enumerate_rulers_with_length(1), rulers(&[&[1]]));
    assert_eq!(enumerate_rulers_with_length(2), rulers(&[&[2], &[1, 2]]));
}

#[test]
fn every_ruler_of_a_length_once() {
    for length in 2..14usize {
        let all = enumerate_rulers_with_length(length);
        assert_eq!(all.len(), 1 << (length - 1));
        let distinct: HashSet<&GolombRuler> = all.iter().collect();
        assert_eq!(distinct.len(), all.len());
        for r in &all {
            assert_eq!(r.length(), length as i128);
        }
    }
}

#[test]
fn a_given_ruler_is_among_those_of_its_length() {
    let all = enumerate_rulers_with_length(11);
    for m in [vec![11i128], vec![1, 4, 9, 11], vec![1, 2, 3, 4, 5, 6, 7, 8, 9, 10, 11]] {
        assert!(all.contains(&GolombRuler::new(&m)));
    }
}

#[test]
fn rulers_up_to_a_length() {
    assert!(enumerate_rulers(0).is_empty());
    assert!(enumerate_rulers(1).is_empty());
    assert_eq!(enumerate_rulers(2), rulers(&[&[2], &[1, 2]]));
    assert_eq!(
        enumerate_rulers(3),
        rulers(&[&[2], &[1, 2], &[3], &[2, 3], &[1, 3], &[1, 2, 3]])
    );
    assert_eq!(enumerate_rulers(10).len(), (1 << 10) - 2);
}

#[test]
fn the_iterator_walks_one_length() {
    let mut iter = RulerIterator::new(3);
    let mut seen = Vec::new();
    while let Some(r) = iter.next() {
        seen.push(r);
    }
    assert_eq!(seen, enumerate_rulers_with_length(3));
    // and stays at its end
    assert_eq!(iter.next(), None);
    assert_eq!(iter.next(), None);
}

#[test]
fn pruned_rulers_in_counting_order() {
    assert_eq!(enumerate_pruned_rulers(3, 5), rulers(&[&[4, 5], &[3, 5], &[2, 5], &[1, 5]]));
    assert_eq!(
        enumerate_pruned_rulers(4, 5),
        rulers(&[&[3, 4, 5], &[2, 4, 5], &[2, 3, 5], &[1, 4, 5], &[1, 3, 5], &[1, 2, 5]])
    );
    assert_eq!(enumerate_pruned_rulers(6, 5), rulers(&[&[1, 2, 3, 4, 5]]));
}

#[test]
fn pruned_rulers_are_those_of_the_order() {
    for length in 2..13usize {
        let all = enumerate_rulers_with_length(length);
        for order in 0..(length + 3) {
            let filtered: Vec<GolombRuler> =
                all.iter().filter(|r| r.order() == order).cloned().collect();
            let pruned = enumerate_pruned_rulers(order, length);
            assert_eq!(pruned, filtered);
            let expected = if order < 2 { 0 } else { binomial(length - 1, order - 2) };
            assert_eq!(pruned.len(), expected);
        }
    }
}

#[test]
fn pruned_rulers_of_an_order_that_no_ruler_has() {
    assert!(enumerate_pruned_rulers(0, 6).is_empty());
    assert!(enumerate_pruned_rulers(1, 6).is_empty());
    assert!(enumerate_pruned_rulers(8, 6).is_empty());
}

#[test]
fn the_pruned_iterator_starts_after_the_first_ruler() {
    // with two marks the first ruler is the only one, and the walk lists none
    let mut iter = GolombRulerPrunedIterator::new(2, 6);
    assert_eq!(iter.next(), None);

    let mut iter = GolombRulerPrunedIterator::new(3, 4);
    let mut seen = Vec::new();
    while let Some(r) = iter.next() {
        seen.push(r);
    }
    assert_eq!(seen, rulers(&[&[3, 4], &[2, 4], &[1, 4]]));
    assert_eq!(iter.next(), None);
}

#[test]
fn rulers_with_an_order_up_to_a_length() {
    assert_eq!(
        enumerate_rulers_with_order(3, 4),
        rulers(&[&[1, 2], &[2, 3], &[1, 3], &[3, 4], &[2, 4], &[1, 4]])
    );
    assert_eq!(enumerate_rulers_with_order(2, 5), rulers(&[&[2], &[3], &[4], &[5]]));
    assert!(enumerate_rulers_with_order(1, 5).is_empty());
}

#[test]
fn golomb_rulers_of_one_length() {
    assert_eq!(enumerate_golomb_rulers_with_length(4, 6), rulers(&[&[2, 5, 6], &[1, 4, 6]]));
    assert_eq!(enumerate_golomb_rulers_with_length(3, 3), rulers(&[&[2, 3], &[1, 3]]));
    assert_eq!(enumerate_golomb_rulers_with_length(2, 11), rulers(&[&[11]]));
    // there is no Golomb ruler of order 4 shorter than 6
    assert!(enumerate_golomb_rulers_with_length(4, 5).is_empty());
    // nor one of order 5 shorter than 11
    assert!(enumerate_golomb_rulers_with_length(5, 10).is_empty());
    assert_eq!(enumerate_golomb_rulers_with_length(5, 11).len(), 4);
}

#[test]
fn golomb_rulers_up_to_a_length() {
    assert_eq!(enumerate_golomb_rulers(2, 3), rulers(&[&[2], &[3]]));
    assert_eq!(enumerate_golomb_rulers(4, 6), rulers(&[&[2, 5, 6], &[1, 4, 6]]));
    assert_eq!(enumerate_golomb_rulers(3, 4), rulers(&[&[2, 3], &[1, 3], &[3, 4], &[1, 4]]));
    for r in enumerate_golomb_rulers(4, 12) {
        assert!(r.is_golomb_ruler());
        assert_eq!(r.order(), 4);
    }
}

#[test]
fn golomb_rulers_are_the_same_by_the_pruned_walk() {
    for length in 2..12usize {
        for order in 0..8usize {
            assert_eq!(
                enumerate_golomb_rulers_pruned_with_length(order, length),
                enumerate_golomb_rulers_with_length(order, length)
            );
        }
    }
    for max_length in 0..12usize {
        for order in 0..8usize {
            assert_eq!(
                enumerate_golomb_rulers_pruned(order, max_length),
                enumerate_golomb_rulers(order, max_length)
            );
        }
    }
}

#[test]
fn the_ruler_with_two_marks_is_listed() {
    assert_eq!(enumerate_golomb_rulers_pruned_with_length(2, 3), rulers(&[&[3]]));
    assert_eq!(enumerate_golomb_rulers_pruned(2, 2), rulers(&[&[2]]));
    assert_eq!(enumerate_golomb_rulers_pruned(2, 4), rulers(&[&[2], &[3], &[4]]));
    assert_eq!(enumerate_golomb_rulers_depth_with_length(2, 3, 1), rulers(&[&[3]]));
    assert_eq!(enumerate_golomb_rulers_depth(2, 2, 1), rulers(&[&[2]]));
    assert_eq!(enumerate_golomb_rulers_depth(2, 4, 1), rulers(&[&[2], &[3], &[4]]));
    assert!(enumerate_golomb_rulers_pruned(2, 1).is_empty());
    assert!(enumerate_golomb_rulers_depth(2, 1, 1).is_empty());
}

#[test]
fn the_pruned_walk_keeps_golomb_rulers_only() {
    assert_eq!(
        enumerate_golomb_rulers_pruned_with_length(4, 6),
        rulers(&[&[2, 5, 6], &[1, 4, 6]])
    );
    for r in enumerate_golomb_rulers_pruned_with_length(4, 15) {
        assert!(r.is_golomb_ruler());
    }
    for order in 0..7usize {
        for r in enumerate_golomb_rulers_pruned(order, 10) {
            assert!(r.is_golomb_ruler());
            assert_eq!(r.order(), order);
        }
    }
}

#[test]
fn the_depth_walk_keeps_what_passes() {
    assert_eq!(enumerate_golomb_rulers_depth_with_length(3, 4, 1), rulers(&[&[3, 4], &[1, 4]]));
    for length in 2..12usize {
        for order in 0..8usize {
            let expected: Vec<GolombRuler> = enumerate_rulers_with_length(length)
                .into_iter()
                .filter(|r| r.order() == order && r.is_golomb_ruler_order_1())
                .collect();
            assert_eq!(enumerate_golomb_rulers_depth_with_length(order, length, 1), expected);
        }
    }
}

#[test]
fn the_depth_walk_does_not_read_the_depth() {
    assert_eq!(
        enumerate_golomb_rulers_depth_with_length(4, 9, 1),
        enumerate_golomb_rulers_depth_with_length(4, 9, 5)
    );
    assert_eq!(enumerate_golomb_rulers_depth(4, 9, 0), enumerate_golomb_rulers_depth(4, 9, 1));
}

#[test]
fn the_depth_walk_loses_no_golomb_ruler() {
    for length in 2..13usize {
        for order in 0..8usize {
            let deep = enumerate_golomb_rulers_depth_with_length(order, length, 1);
            for r in enumerate_pruned_rulers(order, length) {
                if r.is_golomb_ruler() {
                    assert!(deep.contains(&r));
                }
            }
            for r in enumerate_golomb_rulers_pruned_with_length(order, length) {
                assert!(deep.contains(&r));
            }
        }
    }
    for order in [2usize, 3, 5] {
        let deep = enumerate_golomb_rulers_depth(order, 13, 1);
        for r in enumerate_golomb_rulers_pruned(order, 13) {
            assert!(deep.contains(&r));
        }
    }
}

#[test]
fn the_depth_iterator_walks_one_length() {
    let mut iter = GolombRulerDepthIterator::new(3, 4, 1);
    let mut seen = Vec::new();
    while let Some(r) = iter.next() {
        seen.push(r);
    }
    assert_eq!(seen, rulers(&[&[3, 4], &[1, 4]]));
    assert_eq!(iter.next(), None);
}

#[test]
fn the_depth_walks_up_to_a_length() {
    let mut expected = Vec::new();
    for length in 2..9usize {
        expected.extend(enumerate_golomb_rulers_depth_with_length(4, length, 1));
    }
    assert_eq!(enumerate_golomb_rulers_depth(4, 8, 1), expected);
    assert!(enumerate_golomb_rulers_depth(4, 1, 1).is_empty());
}

#[test]
fn the_error_of_an_index() {
    assert_eq!(
        GolombIterationError::IndexOverflow.message(),
        "The current golomb ruler index can't be contained in a u64"
    );
}
