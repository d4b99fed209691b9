use ogr_rust::{enumerate_rulers_with_length, GolombRuler, Ruler, RulerState};

#[test]
fn the_first_ids() {
    assert_eq!(GolombRuler::from_id(0), GolombRuler::new(&[]));
    assert_eq!(GolombRuler::from_id(0).order(), 1);
    assert_eq!(GolombRuler::from_id(1), GolombRuler::new(&[1]));
    assert_eq!(GolombRuler::from_id(2), GolombRuler::new(&[2]));
    assert_eq!(GolombRuler::from_id(3), GolombRuler::new(&[1, 2]));
    assert_eq!(GolombRuler::from_id(4), GolombRuler::new(&[3]));
    assert_eq!(GolombRuler::from_id(9), GolombRuler::new(&[1, 4]));
    assert_eq!(GolombRuler::from_id(10), GolombRuler::new(&[2, 4]));
    assert_eq!(GolombRuler::from_id(22528), GolombRuler::new(&[12, 13, 15]));
}

#[test]
fn ruler_from_id_is_the_same() {
    for id in 0..50 {
        assert_eq!(Ruler::from_id(id), GolombRuler::from_id(id));
    }
}

#[test]
fn the_length_is_the_place_of_the_highest_bit() {
    assert_eq!(GolombRuler::from_id(1 << 40).length(), 41);
    assert_eq!(GolombRuler::from_id((1 << 40) - 1).length(), 40);
    assert_eq!(GolombRuler::from_id(u64::MAX).length(), 64);
    assert_eq!(GolombRuler::from_id(u64::MAX).order(), 65);
    assert_eq!(GolombRuler::from_id(1 << 63), GolombRuler::new(&[64]));
}

#[test]
fn the_first_ids_back() {
    assert_eq!(GolombRuler::new(&[]).to_id(), Some(0));
    assert_eq!(GolombRuler::new(&[1]).to_id(), Some(1));
    assert_eq!(GolombRuler::new(&[2]).to_id(), Some(2));
    assert_eq!(GolombRuler::new(&[1, 2]).to_id(), Some(3));
    assert_eq!(GolombRuler::new(&[2, 4]).to_id(), Some(10));
    assert_eq!(GolombRuler::new(&[1, 3, 7]).to_id(), Some(64 + 4 + 1));
}

#[test]
fn no_id_beyond_length_64() {
    assert_eq!(GolombRuler::new(&[64]).to_id(), Some(1 << 63));
    assert_eq!(GolombRuler::new(&[65]).to_id(), None);
    assert_eq!(GolombRuler::new(&[1, 2, 1000]).to_id(), None);
    let all: Vec<i128> = (1..=64).collect();
    assert_eq!(GolombRuler::new(&all).to_id(), Some(u64::MAX));
}

#[test]
fn from_an_id_and_back() {
    for id in 0..5000u64 {
        assert_eq!(GolombRuler::from_id(id).to_id(), Some(id));
    }
    for id in [u64::MAX, u64::MAX - 1, 1 << 63, (1 << 63) + 1, 0xdead_beef_0bad_f00d] {
        assert_eq!(GolombRuler::from_id(id).to_id(), Some(id));
    }
}

#[test]
fn from_a_ruler_and_back() {
    for length in 0..12 {
        for ruler in enumerate_rulers_with_length(length) {
            let id = ruler.to_id().unwrap();
            assert_eq!(GolombRuler::from_id(id), ruler);
        }
    }
    let long = GolombRuler::new(&[3, 17, 40, 63, 64]);
    assert_eq!(GolombRuler::from_id(long.to_id().unwrap()), long);
}

#[test]
fn ids_of_one_length_are_in_a_row() {
    // the rulers of length 5 have the ids from 16 to 31, each once
    let mut ids: Vec<u64> =
        enumerate_rulers_with_length(5).iter().map(|r| r.to_id().unwrap()).collect();
    ids.sort();
    assert_eq!(ids, (16..32).collect::<Vec<u64>>());
}

#[test]
fn from_ids_gives_the_range() {
    let rulers = GolombRuler::from_ids(3, 7);
    assert_eq!(
        rulers,
        vec![
            GolombRuler::new(&[1, 2]),
            GolombRuler::new(&[3]),
            GolombRuler::new(&[1, 3]),
            GolombRuler::new(&[2, 3]),
        ]
    );
    assert!(GolombRuler::from_ids(7, 7).is_empty());
    assert!(GolombRuler::from_ids(9, 7).is_empty());
}

#[test]
fn to_state_tells_the_marks_between_the_ends() {
    assert_eq!(GolombRuler::new(&[2, 4]).to_state(), vec![false, true, false]);
    assert_eq!(GolombRuler::new(&[1, 3, 7]).to_state(), vec![true, false, true, false, false, false]);
    assert_eq!(GolombRuler::new(&[5]).to_state(), vec![false; 4]);
    assert_eq!(GolombRuler::new(&[1]).to_state(), Vec::<bool>::new());
    assert_eq!(GolombRuler::new(&[]).to_state(), Vec::<bool>::new());
}

#[test]
fn a_state_and_its_ruler() {
    for length in 1..10 {
        for ruler in enumerate_rulers_with_length(length) {
            assert_eq!(ruler.to_state().to_ruler(), ruler);
            assert_eq!(ruler.to_state().len() + 1, length);
        }
    }
}

#[test]
fn next_pruned_of_a_ruler() {
    // length 5, order 4: after [0, 3, 4, 5] comes [0, 2, 4, 5]
    let ruler = GolombRuler::new(&[3, 4, 5]);
    assert_eq!(ruler.next_pruned(4, 5), Some(GolombRuler::new(&[2, 4, 5])));
    // the last one
    assert_eq!(GolombRuler::new(&[1, 2, 5]).next_pruned(4, 5), None);
    // a shorter ruler is first brought to the length
    assert_eq!(GolombRuler::new(&[2, 3]).next_pruned(3, 5), Some(GolombRuler::new(&[1, 5])));
    // a longer one has no next
    assert_eq!(GolombRuler::new(&[2, 9]).next_pruned(3, 5), None);
}
