use ogr_rust::{GolombRuler, RulerState};

fn bits(text: &str) -> Vec<bool> {
    text.chars().map(|c| c == '1').collect()
}

#[test]
fn to_u64_reads_the_last_bit_as_the_lowest() {
    assert_eq!(bits("110").to_u64(), Some(6));
    assert_eq!(bits("001").to_u64(), Some(1));
    assert_eq!(bits("").to_u64(), Some(0));
    assert_eq!(vec![true; 64].to_u64(), Some(u64::MAX));
}

#[test]
fn to_u64_gives_nothing_beyond_64_bits() {
    assert_eq!(vec![false; 65].to_u64(), None);
    assert_eq!(vec![true; 100].to_u64(), None);
}

#[test]
fn marks_are_counted() {
    assert_eq!(bits("10110").count_marks(), 3);
    assert_eq!(bits("10110").total_marks(), 5);
    assert_eq!(bits("").count_marks(), 0);
    assert_eq!(bits("").total_marks(), 2);
    assert_eq!(bits("000").total_marks(), 2);
}

#[test]
fn all_tells_a_full_state() {
    assert!(bits("111").all());
    assert!(bits("").all());
    assert!(!bits("101").all());
}

#[test]
fn go_left_appends_a_cleared_bit() {
    assert_eq!(bits("10").go_left(), bits("100"));
    assert_eq!(bits("").go_left(), bits("0"));
}

#[test]
fn back_one_then_right_sets_the_last_bit() {
    assert_eq!(bits("100").back_one_then_right(), bits("101"));
    assert_eq!(bits("101").back_one_then_right(), bits("101"));
}

#[test]
fn backtrack_counts_up_by_one() {
    assert_eq!(bits("0111").backtrack(), Some(bits("1000")));
    assert_eq!(bits("0100").backtrack(), Some(bits("0101")));
    assert_eq!(bits("1011").backtrack(), Some(bits("1100")));
}

#[test]
fn backtrack_ends_at_the_full_state() {
    assert_eq!(bits("1111").backtrack(), None);
    assert_eq!(bits("").backtrack(), None);
}

#[test]
fn add_mark_sets_the_last_cleared_bit() {
    assert_eq!(bits("101").add_mark(), Some(bits("111")));
    assert_eq!(bits("00").add_mark(), Some(bits("01")));
    assert_eq!(bits("0011").add_mark(), Some(bits("0111")));
    assert_eq!(bits("11").add_mark(), None);
}

#[test]
fn jump_back_clears_the_last_run_and_sets_the_bit_before_it() {
    assert_eq!(bits("010").jump_back(), bits("100"));
    assert_eq!(bits("0110").jump_back(), bits("1000"));
    assert_eq!(bits("10100").jump_back(), bits("11000"));
    assert_eq!(bits("010110").jump_back(), bits("011000"));
}

#[test]
fn jump_back_at_its_edges() {
    // no set bit: the state stays
    assert_eq!(bits("000").jump_back(), bits("000"));
    assert_eq!(bits("").jump_back(), bits(""));
    // the run starts at the first bit: nothing is left set
    assert_eq!(bits("110").jump_back(), bits("000"));
    assert_eq!(bits("111").jump_back(), bits("000"));
}

#[test]
fn state_as_text() {
    assert_eq!(bits("110").to_string(), "110");
    assert_eq!(bits("").to_string(), "");
}

#[test]
fn to_ruler_gives_the_marks() {
    assert_eq!(bits("100").to_ruler(), GolombRuler::new(&[1, 4]));
    assert_eq!(bits("").to_ruler(), GolombRuler::new(&[1]));
    assert_eq!(bits("000").to_ruler(), GolombRuler::new(&[4]));
    assert_eq!(bits("0101").to_ruler(), GolombRuler::new(&[2, 4, 5]));
}

#[test]
fn contains_knows_the_two_ends() {
    let state = bits("0101");
    assert!(state.contains(0));
    assert!(state.contains(5));
    assert!(state.contains(2));
    assert!(state.contains(4));
    assert!(!state.contains(1));
    assert!(!state.contains(3));
    assert!(!state.contains(6));
    assert!(!state.contains(-1));
    assert!(!state.contains(i128::MIN));
    assert!(!state.contains(i128::MAX));
}

#[test]
fn contains_does_not_wrap_large_values() {
    // 2^64 + 2 would fall on the mark 2 if it were cut to 64 bits
    let state = bits("0101");
    assert!(!state.contains((1i128 << 64) + 2));
    assert!(!state.contains((1i128 << 32) + 2));
}

#[test]
fn depth_check_on_states() {
    // [0, 2, 4]: 4 - 2 = 2 is a mark
    assert!(!bits("010").is_golomb_ruler_order_1());
    // [0, 1, 4]: 4 - 1 = 3 is no mark
    assert!(bits("100").is_golomb_ruler_order_1());
    // [0, 1, 3, 4]: 4 - 1 = 3 is a mark
    assert!(!bits("101").is_golomb_ruler_order_1());
    assert!(bits("000").is_golomb_ruler_order_1());
    assert!(bits("").is_golomb_ruler_order_1());
}

#[test]
fn next_walks_through_all_states() {
    let mut state = bits("0");
    let mut seen = Vec::new();
    while let Some(next) = state.next(3) {
        seen.push(next.clone());
        state = next;
    }
    assert_eq!(seen, vec![bits("00"), bits("01"), bits("10"), bits("11")]);
}

#[test]
fn next_extends_a_short_state_to_full_length() {
    assert_eq!(bits("1").next(5), Some(bits("1000")));
    assert_eq!(bits("").next(4), Some(bits("000")));
}

#[test]
fn next_gives_nothing_for_a_state_that_is_too_long() {
    assert_eq!(bits("000").next(3), None);
    assert_eq!(bits("0000000").next(2), None);
}

#[test]
fn pruned_propose_next_follows_its_rule() {
    // cleared last bit, marks wanted: the last bit is set
    assert_eq!(bits("0100").pruned_propose_next(4), Some(bits("0101")));
    // cleared last bit, enough marks: jump back
    assert_eq!(bits("0110").pruned_propose_next(4), Some(bits("1000")));
    // cleared last bit, enough marks, all at the front: done
    assert_eq!(bits("1100").pruned_propose_next(4), None);
    // cleared last bit, too many marks: the last bit is set all the same
    assert_eq!(bits("1110").pruned_propose_next(3), Some(bits("1111")));
    // set last bit: count up
    assert_eq!(bits("0011").pruned_propose_next(4), Some(bits("0100")));
    // every bit set: done
    assert_eq!(bits("1111").pruned_propose_next(4), None);
    // order 2 on the cleared state: done
    assert_eq!(bits("000").pruned_propose_next(2), None);
}

#[test]
fn next_pruned_keeps_the_number_of_marks() {
    let mut state = bits("000");
    let mut seen = Vec::new();
    while let Some(next) = state.next_pruned(4, 5) {
        seen.push(next.clone());
        state = next;
    }
    assert_eq!(
        seen,
        vec![bits("0011"), bits("0101"), bits("0110"), bits("1001"), bits("1010"), bits("1100")]
    );
}

#[test]
fn next_pruned_never_gives_the_state_it_starts_from() {
    // the cleared state has the two marks of order 2, and still nothing follows it
    assert_eq!(bits("000").next_pruned(2, 5), None);
    assert_eq!(bits("0000").next_pruned(2, 5), None);
    // a short state is extended first, and the extended state is passed over
    assert_eq!(bits("01").next_pruned(3, 5), Some(bits("1000")));
}

#[test]
fn next_pruned_without_a_ruler_of_that_order() {
    assert_eq!(bits("000").next_pruned(0, 5), None);
    assert_eq!(bits("000").next_pruned(1, 5), None);
    assert_eq!(bits("000").next_pruned(7, 5), None);
    assert_eq!(bits("00000").next_pruned(3, 5), None);
}

#[test]
fn next_golomb_depth_1_passes_over_failing_states() {
    // length 5, order 3: the marks 1, 2, 3, 4 in turn; all pass but none is left out
    let mut state = bits("000");
    let mut seen = Vec::new();
    while let Some(next) = state.next_golomb_depth_1(3, 5) {
        seen.push(next.clone());
        state = next;
    }
    assert_eq!(seen, vec![bits("0001"), bits("0010"), bits("0100"), bits("1000")]);

    // length 4, order 3: [0, 2, 4] fails, as 4 - 2 = 2
    let mut state = bits("00");
    let mut seen = Vec::new();
    while let Some(next) = state.next_golomb_depth_1(3, 4) {
        seen.push(next.clone());
        state = next;
    }
    assert_eq!(seen, vec![bits("001"), bits("100")]);
}
