use ogr_rust::{dist, Distance, GolombRuler, Ruler};
use std::collections::HashSet;

#[test]
fn dist_is_the_absolute_difference() {
    assert_eq!(dist(3, 10), 7);
    assert_eq!(dist(10, 3), 7);
    assert_eq!(dist(5, 5), 0);
    assert_eq!(dist(0, i128::MAX), i128::MAX);
}

#[test]
fn order_counts_the_mark_zero() {
    assert_eq!(GolombRuler::new(&[]).order(), 1);
    assert_eq!(GolombRuler::new(&[5]).order(), 2);
    assert_eq!(GolombRuler::new(&[1, 3, 7]).order(), 4);
}

#[test]
fn length_is_the_last_mark() {
    assert_eq!(GolombRuler::new(&[]).length(), 0);
    assert_eq!(GolombRuler::new(&[5]).length(), 5);
    assert_eq!(GolombRuler::new(&[1, 3, 7]).length(), 7);
}

#[test]
fn a_repeated_distance_is_found() {
    // 1 and 2 are as far apart as 0 and 1
    assert!(!GolombRuler::new(&[1, 2]).is_golomb_ruler());
    assert!(!Ruler::is_golomb_ruler(&[1, 2]));
    // 6 - 3 = 3 - 0
    assert!(!Ruler::is_golomb_ruler(&[3, 6]));
    // 5 - 4 = 1 - 0
    assert!(!Ruler::is_golomb_ruler(&[1, 4, 5]));
    // 5 - 3 = 3 - 1, none of the two from 0
    assert!(!Ruler::is_golomb_ruler(&[1, 3, 5, 12]));
}

#[test]
fn golomb_rulers_are_accepted() {
    assert!(GolombRuler::new(&[1, 3, 7]).is_golomb_ruler());
    assert!(Ruler::is_golomb_ruler(&[1, 3, 7]));
    assert!(Ruler::is_golomb_ruler(&[1, 4, 6]));
    assert!(Ruler::is_golomb_ruler(&[1, 4, 9, 11]));
    assert!(Ruler::is_golomb_ruler(&[1, 4, 10, 12, 17]));
}

#[test]
fn short_rulers_are_golomb_rulers() {
    assert!(Ruler::is_golomb_ruler(&[]));
    assert!(Ruler::is_golomb_ruler(&[1]));
    assert!(Ruler::is_golomb_ruler(&[9]));
    assert!(Ruler::is_golomb_ruler(&[0]));
    assert!(GolombRuler::new(&[]).is_golomb_ruler());
}

#[test]
fn marks_that_repeat_are_no_golomb_ruler() {
    assert!(!Ruler::is_golomb_ruler(&[4, 4]));
    assert!(!Ruler::is_golomb_ruler(&[0, 5]));
}

#[test]
fn the_verdict_is_that_of_all_pairs() {
    // compare with the definition on every ruler of a small box
    for a in 1..7i128 {
        for b in (a + 1)..9 {
            for c in (b + 1)..11 {
                let full = [0, a, b, c];
                let mut gaps = Vec::new();
                for i in 0..4 {
                    for j in (i + 1)..4 {
                        gaps.push(full[j] - full[i]);
                    }
                }
                let distinct: HashSet<i128> = gaps.iter().cloned().collect();
                assert_eq!(Ruler::is_golomb_ruler(&[a, b, c]), distinct.len() == gaps.len());
            }
        }
    }
}

#[test]
fn as_set_holds_the_marks() {
    let set = GolombRuler::new(&[1, 3, 7]).as_set();
    let expected: HashSet<i128> = [1, 3, 7].into_iter().collect();
    assert_eq!(set, expected);
    assert!(GolombRuler::new(&[]).as_set().is_empty());
}

#[test]
fn depth_check_on_rulers() {
    // 4 - 2 = 2 is a mark
    assert!(!GolombRuler::new(&[2, 4]).is_golomb_ruler_order_1());
    assert!(GolombRuler::new(&[1, 4]).is_golomb_ruler_order_1());
    assert!(GolombRuler::new(&[7]).is_golomb_ruler_order_1());
    // 7 - 3 = 4 is no mark; 7 - 1 = 6 is none
    assert!(GolombRuler::new(&[1, 3, 7]).is_golomb_ruler_order_1());
    // passes, and is no Golomb ruler: 2 - 1 = 1 - 0
    assert!(GolombRuler::new(&[1, 2, 7]).is_golomb_ruler_order_1());
    assert!(!GolombRuler::new(&[1, 2, 7]).is_golomb_ruler());
}

#[test]
fn every_golomb_ruler_passes_the_depth_check() {
    let marks: [&[i128]; 5] =
        [&[1, 3, 7], &[1, 4, 6], &[2, 5, 6], &[1, 4, 9, 11], &[1, 4, 10, 12, 17]];
    for m in marks {
        let ruler = GolombRuler::new(m);
        assert!(ruler.is_golomb_ruler());
        assert!(ruler.is_golomb_ruler_order_1());
    }
}

#[test]
fn distances_mark_by_mark() {
    let d = GolombRuler::new(&[1, 3, 7]).distances();
    let expected = vec![
        Distance { lhs: 0, rhs: 1, dist: 1 },
        Distance { lhs: 1, rhs: 3, dist: 2 },
        Distance { lhs: 1, rhs: 7, dist: 6 },
        Distance { lhs: 0, rhs: 3, dist: 3 },
        Distance { lhs: 3, rhs: 7, dist: 4 },
        Distance { lhs: 0, rhs: 7, dist: 7 },
    ];
    assert_eq!(d, expected);
    assert!(GolombRuler::new(&[]).distances().is_empty());
}

#[test]
fn distances_are_as_many_as_pairs() {
    for n in 0..8usize {
        let marks: Vec<i128> = (1..=n as i128).collect();
        assert_eq!(GolombRuler::new(&marks).distances().len(), n * (n + 1) / 2);
    }
}

#[test]
fn textual_form() {
    assert_eq!(GolombRuler::new(&[1, 3, 7]).to_string(), "[0, 1, 3, 7]");
    assert_eq!(GolombRuler::new(&[]).to_string(), "[0]");
    assert_eq!(GolombRuler::new(&[10, 205, 3000]).to_string(), "[0, 10, 205, 3000]");
}

#[test]
fn textual_form_of_unusual_marks() {
    assert_eq!(GolombRuler::new(&[0]).to_string(), "[0, 0]");
    assert_eq!(GolombRuler::new(&[-5, 12]).to_string(), "[0, -5, 12]");
    assert_eq!(
        GolombRuler::new(&[i128::MAX]).to_string(),
        "[0, 170141183460469231731687303715884105727]"
    );
    assert_eq!(
        GolombRuler::new(&[i128::MIN]).to_string(),
        "[0, -170141183460469231731687303715884105728]"
    );
}

#[test]
fn textual_form_agrees_with_the_debug_form_of_the_marks() {
    for marks in [vec![1i128, 3, 7], vec![9, 10, 99, 100, 101, 1000], vec![]] {
        let mut full = vec![0i128];
        full.extend(marks.iter());
        assert_eq!(GolombRuler::new(&marks).to_string(), format!("{:?}", full));
    }
}

#[test]
fn marks_are_given_back() {
    assert_eq!(GolombRuler::new(&[1, 3, 7]).marks(), &vec![1, 3, 7]);
    assert!(GolombRuler::new(&[]).marks().is_empty());
}

#[test]
fn the_marks_of_a_ruler_are_positive_and_ascending() {
    assert!(GolombRuler::new(&[]).is_ruler());
    assert!(GolombRuler::new(&[1]).is_ruler());
    assert!(GolombRuler::new(&[1, 3, 7]).is_ruler());
    assert!(!GolombRuler::new(&[0]).is_ruler());
    assert!(!GolombRuler::new(&[0, 3]).is_ruler());
    assert!(!GolombRuler::new(&[-1, 3]).is_ruler());
    assert!(!GolombRuler::new(&[3, 3]).is_ruler());
    assert!(!GolombRuler::new(&[1, 5, 4]).is_ruler());
    assert!(!GolombRuler::new(&[2, 1, 5]).is_ruler());
}

#[test]
fn rulers_are_values() {
    let a = GolombRuler::new(&[1, 3, 7]);
    let b = a.clone();
    assert_eq!(a, b);
    assert_ne!(a, GolombRuler::new(&[1, 3, 8]));
    assert!(GolombRuler::new(&[1, 3]) < GolombRuler::new(&[1, 4]));
    assert!(GolombRuler::new(&[1, 3]) < GolombRuler::new(&[1, 3, 7]));
}
