//! Two ways to build one Golomb ruler of a given order, mark by mark.

use crate::rulers::ruler::{distinct_gaps, non_negative, pair_gap};
use crate::rulers::{dist, gap};
use std::collections::HashSet;
use vstd::arithmetic::power2::{
    lemma2_to64, lemma2_to64_rest, lemma_pow2_adds, lemma_pow2_pos, lemma_pow2_strictly_increases,
    lemma_pow2_unfold, pow2,
};
use vstd::prelude::*;

verus! {

/// Why no ruler was built.
#[derive(Debug, Clone, Copy, PartialEq, Eq)]
pub enum GenerationError {
    /// A ruler has one mark at least.
    InvalidOrder,
    /// No mark was found to go on with. Among the marks searched there always is one: this
    /// comes only where the search ends early, at the largest integer of a mark.
    NoCandidate,
}

impl GenerationError {
    /// What went wrong, in words.
    pub fn message(&self) -> (text: String)
        ensures
            *self == GenerationError::InvalidOrder ==> text@ == "Order must be greater than 0!"@,
            *self == GenerationError::NoCandidate ==> text@
                == "Implementation Error on behalf of the programmer!"@,
    {
        match self {
            GenerationError::InvalidOrder => String::from_str("Order must be greater than 0!"),
            GenerationError::NoCandidate => String::from_str(
                "Implementation Error on behalf of the programmer!",
            ),
        }
    }
}

/// The marks `0, 1, 3, 7, ...`: each a power of two less one.
pub open spec fn naive_marks(order: nat) -> Seq<i128> {
    Seq::new(order, |i: int| (pow2(i as nat) - 1) as i128)
}

/// Two of the marks are `d` apart.
pub open spec fn is_gap(marks: Seq<i128>, d: int) -> bool {
    exists|i: int, j: int| 0 <= i < j < marks.len() && #[trigger] pair_gap(marks, i, j) == d
}

/// The distances between any two of the marks.
pub open spec fn gaps_of(marks: Seq<i128>) -> Set<i128> {
    Set::new(|d: i128| is_gap(marks, d as int))
}

/// `c` is one of the marks.
pub open spec fn is_mark(marks: Seq<i128>, c: int) -> bool {
    exists|k: int| 0 <= k < marks.len() && #[trigger] marks[k] == c
}

/// The mark `c` is as far from no mark of `prev` as two marks of `prev` are from each other.
pub open spec fn accepts(prev: Seq<i128>, c: int) -> bool {
    forall|i: int| 0 <= i < prev.len() ==> !is_gap(prev, gap(c, #[trigger] prev[i] as int))
}

/// The first mark from `c` up to `upper` that is new to `prev` and that `prev` accepts.
pub open spec fn first_accepted(prev: Seq<i128>, c: int, upper: int) -> Option<int>
    decreases upper - c + 1,
{
    if c > upper {
        None
    } else if !is_mark(prev, c) && accepts(prev, c) {
        Some(c)
    } else {
        first_accepted(prev, c + 1, upper)
    }
}

/// The marks of the ruler that takes, after `0, 1, 3`, always the first mark that the
/// marks before it accept, looking from the last mark up to twice that mark and one.
pub open spec fn improved_marks(order: nat) -> Seq<i128>
    decreases order,
{
    if order == 0 {
        Seq::empty()
    } else if order == 1 {
        seq![0i128]
    } else if order == 2 {
        seq![0i128, 1i128]
    } else if order == 3 {
        seq![0i128, 1i128, 3i128]
    } else {
        let prev = improved_marks((order - 1) as nat);
        match first_accepted(prev, prev.last() as int, 2 * prev.last() + 1) {
            Some(c) => prev.push(c as i128),
            None => prev,
        }
    }
}

/// The marks of the improved ruler with `order` marks are all within the integers of a
/// mark. They are for 127 marks and fewer; how many more fit is not known here.
pub open spec fn improved_fits(order: nat) -> bool
    decreases order,
{
    if order <= 3 {
        true
    } else {
        let prev = improved_marks((order - 1) as nat);
        improved_fits((order - 1) as nat) && match first_accepted(
            prev,
            prev.last() as int,
            2 * prev.last() + 1,
        ) {
            Some(c) => c <= i128::MAX,
            None => false,
        }
    }
}

/// The pairs of marks that the collection of distances has been through when it stands at
/// the marks `x` and `y`.
spec fn paired(len: nat, x: int, y: int, i: int, j: int) -> bool {
    0 <= i < j < len && (i < x || (i == x && j < y))
}

/// The distances of the pairs that `paired` tells.
spec fn gaps_so_far(marks: Seq<i128>, x: int, y: int) -> Set<i128> {
    Set::new(
        |d: i128|
            exists|i: int, j: int|
                paired(marks.len(), x, y, i, j) && #[trigger] pair_gap(marks, i, j) == d,
    )
}

/// The powers of two up to `2^127`, in figures.
proof fn lemma_pow2_to127()
    ensures
        pow2(126) == 0x4000_0000_0000_0000_0000_0000_0000_0000,
        pow2(127) == 0x8000_0000_0000_0000_0000_0000_0000_0000,
{
    lemma2_to64();
    lemma2_to64_rest();
    lemma_pow2_adds(63, 63);
    lemma_pow2_adds(64, 63);
}

/// A search that has an accepted mark before it finds one.
proof fn lemma_first_accepted(prev: Seq<i128>, c: int, upper: int)
    requires
        c <= upper,
        !is_mark(prev, upper),
        accepts(prev, upper),
    ensures
        first_accepted(prev, c, upper).is_some(),
    decreases upper - c,
{
    if c < upper && !(!is_mark(prev, c) && accepts(prev, c)) {
        lemma_first_accepted(prev, c + 1, upper);
    }
}

/// What the search finds is new to the marks and accepted by them.
proof fn lemma_first_found(prev: Seq<i128>, c: int, upper: int)
    ensures
        match first_accepted(prev, c, upper) {
            Some(r) => c <= r <= upper && !is_mark(prev, r) && accepts(prev, r),
            None => true,
        },
    decreases upper - c + 1,
{
    if c <= upper && !(!is_mark(prev, c) && accepts(prev, c)) {
        lemma_first_found(prev, c + 1, upper);
    }
}

/// Marks that start at 0 and ascend always have a next mark: twice the last mark and one
/// is farther from each of them than any two of them are from each other.
proof fn lemma_next_mark(prev: Seq<i128>)
    requires
        prev.len() >= 1,
        prev[0] == 0,
        forall|i: int, j: int| 0 <= i < j < prev.len() ==> prev[i] < prev[j],
    ensures
        forall|k: int| 0 <= k < prev.len() ==> 0 <= #[trigger] prev[k] <= prev.last(),
        first_accepted(prev, prev.last() as int, 2 * prev.last() + 1).is_some(),
        prev.last() < first_accepted(prev, prev.last() as int, 2 * prev.last() + 1).unwrap() <= 2
            * prev.last() + 1,
{
    let last = prev.last() as int;
    let upper = 2 * last + 1;
    assert forall|k: int| 0 <= k < prev.len() implies 0 <= #[trigger] prev[k] <= last by {
        if 0 < k {
            assert(prev[0] < prev[k]);
        }
        if k < prev.len() - 1 {
            assert(prev[k] < prev[prev.len() - 1]);
        }
    }
    assert(accepts(prev, upper)) by {
        assert forall|i: int| 0 <= i < prev.len() implies !is_gap(
            prev,
            gap(upper, #[trigger] prev[i] as int),
        ) by {
            let d = gap(upper, prev[i] as int);
            if is_gap(prev, d) {
                let (a, b) = choose|a: int, b: int|
                    0 <= a < b < prev.len() && #[trigger] pair_gap(prev, a, b) == d;
                assert(0 <= prev[a] <= last);
                assert(0 <= prev[b] <= last);
            }
        }
    }
    assert(!is_mark(prev, upper)) by {
        if is_mark(prev, upper) {
            let k = choose|k: int| 0 <= k < prev.len() && #[trigger] prev[k] == upper;
            assert(0 <= prev[k] <= last);
        }
    }
    lemma_first_accepted(prev, last, upper);
    lemma_first_found(prev, last, upper);
    assert(is_mark(prev, last)) by {
        assert(prev[prev.len() - 1] == last);
    }
}

/// The marks of the improved ruler start at 0 and ascend, and from the fourth mark on each
/// is the one that the search finds.
pub proof fn lemma_improved_marks(order: nat)
    requires
        order >= 1,
        improved_fits(order),
    ensures
        improved_marks(order).len() == order,
        improved_marks(order)[0] == 0,
        forall|i: int, j: int|
            0 <= i < j < order ==> improved_marks(order)[i] < improved_marks(order)[j],
        order >= 4 ==> first_accepted(
            improved_marks((order - 1) as nat),
            improved_marks((order - 1) as nat).last() as int,
            2 * improved_marks((order - 1) as nat).last() + 1,
        ) == Some(improved_marks(order).last() as int),
    decreases order,
{
    if order >= 4 {
        let prev = improved_marks((order - 1) as nat);
        lemma_improved_marks((order - 1) as nat);
        lemma_next_mark(prev);
        let last = prev.last() as int;
        let c = first_accepted(prev, last, 2 * last + 1).unwrap();
        let marks = improved_marks(order);
        assert(marks == prev.push(c as i128));
        assert forall|i: int, j: int| 0 <= i < j < order implies marks[i] < marks[j] by {
            assert(0 <= prev[i] <= last);
            if j < order - 1 {
                assert(prev[i] < prev[j]);
            }
        }
    }
}

/// Up to 127 marks the improved ruler fits: a mark is no more than twice the one before
/// it and one, so that the last of `order` marks is below `2^(order - 1)`.
pub proof fn lemma_improved_fits(order: nat)
    requires
        1 <= order <= 127,
    ensures
        improved_fits(order),
        improved_marks(order).last() < pow2((order - 1) as nat),
    decreases order,
{
    lemma2_to64();
    if order >= 4 {
        let prev = improved_marks((order - 1) as nat);
        lemma_improved_fits((order - 1) as nat);
        lemma_improved_marks((order - 1) as nat);
        lemma_next_mark(prev);
        lemma_pow2_unfold((order - 1) as nat);
        lemma_pow2_to127();
        if order < 127 {
            lemma_pow2_strictly_increases((order - 1) as nat, 126);
        }
    }
}

/// The improved ruler is a Golomb ruler: no two pairs of its marks are the same distance
/// apart.
pub proof fn lemma_improved_is_golomb(order: nat)
    requires
        order >= 1,
        improved_fits(order),
    ensures
        distinct_gaps(improved_marks(order)),
    decreases order,
{
    let marks = improved_marks(order);
    if order >= 4 {
        let prev = improved_marks((order - 1) as nat);
        lemma_improved_is_golomb((order - 1) as nat);
        lemma_improved_marks((order - 1) as nat);
        lemma_improved_marks(order);
        lemma_next_mark(prev);
        let last = prev.last() as int;
        let c = first_accepted(prev, last, 2 * last + 1).unwrap();
        lemma_first_found(prev, last, 2 * last + 1);
        assert(marks == prev.push(c as i128));
        let top = order - 1;
        assert forall|i: int, j: int, k: int, l: int|
            0 <= i < j < marks.len() && 0 <= k < l < marks.len() && (i != k || j != l)
                implies #[trigger] pair_gap(marks, i, j) != #[trigger] pair_gap(marks, k, l) by {
            if j < top && l < top {
                assert(pair_gap(marks, i, j) == pair_gap(prev, i, j));
                assert(pair_gap(marks, k, l) == pair_gap(prev, k, l));
            } else if j == top && l == top {
                assert(marks[i] == prev[i] && marks[k] == prev[k]);
                if i < k {
                    assert(prev[i] < prev[k]);
                } else {
                    assert(prev[k] < prev[i]);
                }
            } else if j == top {
                assert(marks[i] == prev[i]);
                assert(!is_gap(prev, gap(c, prev[i] as int)));
                assert(pair_gap(marks, k, l) == pair_gap(prev, k, l));
            } else {
                assert(marks[k] == prev[k]);
                assert(!is_gap(prev, gap(c, prev[k] as int)));
                assert(pair_gap(marks, i, j) == pair_gap(prev, i, j));
            }
        }
    } else {
        assert forall|i: int, j: int, k: int, l: int|
            0 <= i < j < marks.len() && 0 <= k < l < marks.len() && (i != k || j != l)
                implies #[trigger] pair_gap(marks, i, j) != #[trigger] pair_gap(marks, k, l) by {
            assert(marks[i] == 0 || marks[i] == 1);
            assert(marks[k] == 0 || marks[k] == 1);
        }
    }
}

/// Two to the power of `e`.
fn power_of_two(e: u32) -> (p: i128)
    requires
        e <= 126,
    ensures
        p == pow2(e as nat),
{
    let mut p: i128 = 1;
    let mut i: u32 = 0;
    proof {
        lemma2_to64();
    }
    while i < e
        invariant
            i <= e <= 126,
            p == pow2(i as nat),
        decreases e - i,
    {
        proof {
            lemma_pow2_unfold((i + 1) as nat);
            lemma_pow2_to127();
            if i + 1 < 126 {
                lemma_pow2_strictly_increases((i + 1) as nat, 126);
            }
        }
        p = 2 * p;
        i += 1;
    }
    p
}

/// Test if `c` is one of the marks.
fn has_mark(marks: &Vec<i128>, c: i128) -> (found: bool)
    ensures
        found == marks@.contains(c),
{
    let mut i: usize = 0;
    while i < marks.len()
        invariant
            i <= marks@.len(),
            forall|k: int| 0 <= k < i ==> marks@[k] != c,
        decreases marks@.len() - i,
    {
        if marks[i] == c {
            return true;
        }
        i += 1;
    }
    false
}

/// Compute the distances between any two marks of `sequence` and return them in a set.
pub fn compute_distances(sequence: &[i128]) -> (distances: HashSet<i128>)
    requires
        non_negative(sequence@),
    ensures
        distances@ == gaps_of(sequence@),
{
    broadcast use vstd::std_specs::hash::group_hash_axioms;

    let mut distances: HashSet<i128> = HashSet::new();
    let n = sequence.len();
    let mut lhs_index: usize = 0;
    assert(distances@ =~= gaps_so_far(sequence@, 0, 0));
    while lhs_index < n
        invariant
            lhs_index <= n,
            n == sequence@.len(),
            non_negative(sequence@),
            distances@ == gaps_so_far(sequence@, lhs_index as int, 0),
        decreases n - lhs_index,
    {
        let lhs = sequence[lhs_index];
        let mut rhs_index: usize = lhs_index + 1;
        while rhs_index < n
            invariant
                lhs_index < rhs_index <= n,
                n == sequence@.len(),
                non_negative(sequence@),
                lhs == sequence@[lhs_index as int],
                distances@ == gaps_so_far(sequence@, lhs_index as int, rhs_index as int),
            decreases n - rhs_index,
        {
            let ghost before = distances@;
            let d = dist(lhs, sequence[rhs_index]);
            distances.insert(d);
            proof {
                let x = lhs_index as int;
                let y = rhs_index as int;
                let after = gaps_so_far(sequence@, x, y + 1);
                assert(d == pair_gap(sequence@, x, y));
                assert forall|e: i128| before.insert(d).contains(e) <==> after.contains(e) by {
                    if before.contains(e) {
                        let (i, j) = choose|i: int, j: int|
                            paired(sequence@.len(), x, y, i, j) && #[trigger] pair_gap(
                                sequence@,
                                i,
                                j,
                            ) == e;
                        assert(paired(sequence@.len(), x, y + 1, i, j));
                    }
                    if e == d {
                        assert(paired(sequence@.len(), x, y + 1, x, y));
                    }
                    if after.contains(e) {
                        let (i, j) = choose|i: int, j: int|
                            paired(sequence@.len(), x, y + 1, i, j) && #[trigger] pair_gap(
                                sequence@,
                                i,
                                j,
                            ) == e;
                        if !(i == x && j == y) {
                            assert(paired(sequence@.len(), x, y, i, j));
                        }
                    }
                }
                assert(distances@ =~= after);
            }
            rhs_index += 1;
        }
        proof {
            let x = lhs_index as int;
            assert forall|e: i128|
                gaps_so_far(sequence@, x, n as int).contains(e) <==> gaps_so_far(
                    sequence@,
                    x + 1,
                    0,
                ).contains(e) by {
                if gaps_so_far(sequence@, x, n as int).contains(e) {
                    let (i, j) = choose|i: int, j: int|
                        paired(sequence@.len(), x, n as int, i, j) && #[trigger] pair_gap(
                            sequence@,
                            i,
                            j,
                        ) == e;
                    assert(paired(sequence@.len(), x + 1, 0, i, j));
                }
                if gaps_so_far(sequence@, x + 1, 0).contains(e) {
                    let (i, j) = choose|i: int, j: int|
                        paired(sequence@.len(), x + 1, 0, i, j) && #[trigger] pair_gap(
                            sequence@,
                            i,
                            j,
                        ) == e;
                    assert(paired(sequence@.len(), x, n as int, i, j));
                }
            }
            assert(distances@ =~= gaps_so_far(sequence@, x + 1, 0));
        }
        lhs_index += 1;
    }
    proof {
        assert forall|e: i128|
            gaps_so_far(sequence@, n as int, 0).contains(e) <==> gaps_of(sequence@).contains(
                e,
            ) by {
            if gaps_so_far(sequence@, n as int, 0).contains(e) {
                let (i, j) = choose|i: int, j: int|
                    paired(sequence@.len(), n as int, 0, i, j) && #[trigger] pair_gap(
                        sequence@,
                        i,
                        j,
                    ) == e;
                assert(0 <= i < j < sequence@.len() && pair_gap(sequence@, i, j) == e);
            }
            if gaps_of(sequence@).contains(e) {
                let (i, j) = choose|i: int, j: int|
                    0 <= i < j < sequence@.len() && #[trigger] pair_gap(sequence@, i, j) == e;
                assert(paired(sequence@.len(), n as int, 0, i, j));
            }
        }
        assert(distances@ =~= gaps_of(sequence@));
    }
    distances
}

/// Check if a candidate should be accepted: it is, unless a distance from it to one of the
/// first `order - 1` marks of `prev` is among `distances`.
pub fn should_accept_candidate(
    candidate: i128,
    distances: &HashSet<i128>,
    prev: &[i128],
    order: u32,
) -> (accept: bool)
    requires
        1 <= order <= prev@.len() + 1,
        candidate >= 0,
        non_negative(prev@),
    ensures
        accept == forall|i: int|
            0 <= i < order - 1 ==> !distances@.contains(
                gap(candidate as int, #[trigger] prev@[i] as int) as i128,
            ),
{
    broadcast use vstd::std_specs::hash::group_hash_axioms;

    let mut i: usize = 0;
    while i < (order - 1) as usize
        invariant
            1 <= order <= prev@.len() + 1,
            i <= order - 1,
            candidate >= 0,
            non_negative(prev@),
            forall|k: int|
                0 <= k < i ==> !distances@.contains(
                    gap(candidate as int, #[trigger] prev@[k] as int) as i128,
                ),
        decreases order - 1 - i,
    {
        let gap = dist(candidate, prev[i]);
        if distances.contains(&gap) {
            return false;
        }
        i += 1;
    }
    true
}

/// Generate a Golomb ruler with `order` marks, each a power of two less one.
pub fn generate_golomb_ruler_naive(order: u32) -> (ruler: Result<Vec<i128>, GenerationError>)
    requires
        order <= 127,
    ensures
        order == 0 ==> ruler == Err::<Vec<i128>, GenerationError>(GenerationError::InvalidOrder),
        order > 0 ==> ruler.is_ok() && ruler.unwrap()@ == naive_marks(order as nat),
    decreases order,
{
    match order {
        0 => Err(GenerationError::InvalidOrder),
        1 => {
            let mut marks: Vec<i128> = Vec::new();
            marks.push(0);
            proof {
                lemma2_to64();
                assert(marks@ =~= naive_marks(1));
            }
            Ok(marks)
        },
        _ => {
            let mut prev = match generate_golomb_ruler_naive(order - 1) {
                Ok(prev) => prev,
                Err(error) => {
                    return Err(error);
                },
            };
            let next = power_of_two(order - 1) - 1;
            prev.push(next);
            proof {
                lemma_pow2_pos((order - 1) as nat);
                assert(prev@ =~= naive_marks(order as nat));
            }
            Ok(prev)
        },
    }
}

/// Generate a Golomb ruler with `order` marks that takes, after `0, 1, 3`, always the first
/// mark that is as far from no mark before it as two of those are from each other. The
/// search for a mark goes from the last mark up to twice that mark and one, where there
/// always is one, and no further than the integers go: it fails only where a mark would
/// not fit them.
pub fn generate_golomb_ruler_improved(order: u32) -> (ruler: Result<Vec<i128>, GenerationError>)
    ensures
        order == 0 ==> ruler == Err::<Vec<i128>, GenerationError>(GenerationError::InvalidOrder),
        order > 0 && improved_fits(order as nat) ==> ruler.is_ok() && ruler.unwrap()@
            == improved_marks(order as nat),
        order > 0 && !improved_fits(order as nat) ==> ruler == Err::<Vec<i128>, GenerationError>(
            GenerationError::NoCandidate,
        ),
    decreases order,
{
    match order {
        0 => Err(GenerationError::InvalidOrder),
        1 => {
            let mut marks: Vec<i128> = Vec::new();
            marks.push(0);
            assert(marks@ =~= improved_marks(1));
            Ok(marks)
        },
        2 => {
            let mut marks: Vec<i128> = Vec::new();
            marks.push(0);
            marks.push(1);
            assert(marks@ =~= improved_marks(2));
            Ok(marks)
        },
        3 => {
            let mut marks: Vec<i128> = Vec::new();
            marks.push(0);
            marks.push(1);
            marks.push(3);
            assert(marks@ =~= improved_marks(3));
            Ok(marks)
        },
        _ => {
            let mut prev = match generate_golomb_ruler_improved(order - 1) {
                Ok(prev) => prev,
                Err(error) => {
                    return Err(error);
                },
            };
            proof {
                lemma_improved_marks((order - 1) as nat);
                lemma_next_mark(prev@);
            }
            let prev_last = prev[prev.len() - 1];

            let distances = compute_distances(prev.as_slice());
            let ghost candidate_upper_bound = 2 * prev_last + 1;
            // the candidates end at twice the last mark and one, or where the integers end
            let last_candidate: i128 = if prev_last <= (i128::MAX - 1) / 2 {
                2 * prev_last + 1
            } else {
                i128::MAX
            };

            let mut c = prev_last;
            loop
                invariant
                    order >= 4,
                    improved_fits((order - 1) as nat),
                    prev@ == improved_marks((order - 1) as nat),
                    prev@.len() == order - 1,
                    non_negative(prev@),
                    prev_last == prev@.last(),
                    0 <= prev_last <= c <= last_candidate <= candidate_upper_bound,
                    candidate_upper_bound == 2 * prev_last + 1,
                    last_candidate == candidate_upper_bound || last_candidate == i128::MAX,
                    distances@ == gaps_of(prev@),
                    first_accepted(prev@, prev_last as int, candidate_upper_bound).is_some(),
                    first_accepted(prev@, prev_last as int, candidate_upper_bound)
                        == first_accepted(prev@, c as int, candidate_upper_bound),
                decreases last_candidate - c,
            {
                let is_new = !has_mark(&prev, c);
                let accepted = is_new && should_accept_candidate(
                    c,
                    &distances,
                    prev.as_slice(),
                    order,
                );
                proof {
                    assert(is_new == !is_mark(prev@, c as int)) by {
                        if prev@.contains(c) {
                            let k = choose|k: int| 0 <= k < prev@.len() && prev@[k] == c;
                            assert(prev@[k] == c as int);
                        }
                    }
                    if is_new {
                        assert(accepted == accepts(prev@, c as int)) by {
                            assert forall|i: int| 0 <= i < prev@.len() implies (
                            distances@.contains(gap(c as int, #[trigger] prev@[i] as int) as i128)
                                <==> is_gap(prev@, gap(c as int, prev@[i] as int))) by {}
                        }
                    }
                    lemma_first_found(prev@, c as int + 1, candidate_upper_bound);
                }
                if accepted {
                    prev.push(c);
                    return Ok(prev);
                }
                if c == last_candidate {
                    return Err(GenerationError::NoCandidate);
                }
                c += 1;
            }
        },
    }
}

} // verus!
