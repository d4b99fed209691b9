//! The Golomb property, and the check for it.

use crate::rulers::index::id_marks;
use crate::rulers::{dist, gap, GInt, GolombRuler};
use std::collections::HashSet;
use vstd::prelude::*;

verus! {

/// The marks with the first mark, 0, before them.
pub open spec fn with_origin(marks: Seq<i128>) -> Seq<i128> {
    seq![0i128] + marks
}

/// No mark is negative.
pub open spec fn non_negative(marks: Seq<i128>) -> bool {
    forall|i: int| 0 <= i < marks.len() ==> marks[i] >= 0
}

/// How far the marks at `i` and `j` are apart.
pub open spec fn pair_gap(full: Seq<i128>, i: int, j: int) -> int {
    gap(full[i] as int, full[j] as int)
}

/// No two pairs of these marks are the same distance apart.
pub open spec fn distinct_gaps(full: Seq<i128>) -> bool {
    forall|i: int, j: int, k: int, l: int|
        0 <= i < j < full.len() && 0 <= k < l < full.len() && (i != k || j != l)
            ==> #[trigger] pair_gap(full, i, j) != #[trigger] pair_gap(full, k, l)
}

/// The Golomb property of a ruler, given by its marks without the first: no two pairs of
/// its marks, the mark 0 among them, are the same distance apart.
pub open spec fn golomb(marks: Seq<i128>) -> bool {
    distinct_gaps(with_origin(marks))
}

/// The pairs that the check has taken when, at the mark `x` of `len - 1`, it has compared
/// that mark with 0 (`origin`) and with the marks before `y`. In a pair `(i, j)` the marks
/// are counted with the first one, so that the mark `x` stands at `x + 1`.
spec fn taken(len: nat, x: int, origin: bool, y: int, i: int, j: int) -> bool {
    &&& 0 <= i < j < len
    &&& {
        ||| i == 0 && (j <= x || (origin && j == x + 1))
        ||| 1 <= i <= x
        ||| i == x + 1 && j <= y
    }
}

/// The set holds the distances of the pairs taken so far, and those are all different.
spec fn tracks(set: Set<i128>, full: Seq<i128>, x: int, origin: bool, y: int) -> bool {
    &&& forall|d: i128|
        set.contains(d) ==> exists|i: int, j: int|
            #[trigger] taken(full.len(), x, origin, y, i, j) && pair_gap(full, i, j) == d
    &&& forall|i: int, j: int| #[trigger]
        taken(full.len(), x, origin, y, i, j) ==> set.contains(pair_gap(full, i, j) as i128)
    &&& forall|i: int, j: int, k: int, l: int|
        #[trigger] taken(full.len(), x, origin, y, i, j) && #[trigger] taken(
            full.len(),
            x,
            origin,
            y,
            k,
            l,
        ) && (i != k || j != l) ==> pair_gap(full, i, j) != pair_gap(full, k, l)
}

/// A distance that the set already holds belongs to a pair taken before: the marks repeat it.
proof fn lemma_repeated(
    set: Set<i128>,
    full: Seq<i128>,
    x: int,
    origin: bool,
    y: int,
    a: int,
    b: int,
)
    requires
        tracks(set, full, x, origin, y),
        0 <= a < b < full.len(),
        !taken(full.len(), x, origin, y, a, b),
        set.contains(pair_gap(full, a, b) as i128),
        non_negative(full),
    ensures
        !distinct_gaps(full),
{
    let d = pair_gap(full, a, b) as i128;
    let (i, j) = choose|i: int, j: int|
        #[trigger] taken(full.len(), x, origin, y, i, j) && pair_gap(full, i, j) == d;
    assert(pair_gap(full, i, j) == pair_gap(full, a, b));
}

/// One more pair, whose distance is new, keeps the distances different.
proof fn lemma_taken_one_more(
    set: Set<i128>,
    full: Seq<i128>,
    x: int,
    origin: bool,
    y: int,
    x2: int,
    origin2: bool,
    y2: int,
    a: int,
    b: int,
)
    requires
        tracks(set, full, x, origin, y),
        non_negative(full),
        0 <= a < b < full.len(),
        !set.contains(pair_gap(full, a, b) as i128),
        forall|i: int, j: int|
            taken(full.len(), x2, origin2, y2, i, j) <==> (taken(full.len(), x, origin, y, i, j)
                || (i == a && j == b)),
    ensures
        tracks(set.insert(pair_gap(full, a, b) as i128), full, x2, origin2, y2),
{
    let len = full.len();
    let new = pair_gap(full, a, b) as i128;
    let after = set.insert(new);
    assert(taken(len, x2, origin2, y2, a, b));
    assert forall|d: i128| after.contains(d) implies exists|i: int, j: int|
        #[trigger] taken(len, x2, origin2, y2, i, j) && pair_gap(full, i, j) == d by {
        if d == new {
            assert(taken(len, x2, origin2, y2, a, b) && pair_gap(full, a, b) == d);
        } else {
            let (i, j) = choose|i: int, j: int|
                #[trigger] taken(len, x, origin, y, i, j) && pair_gap(full, i, j) == d;
            assert(taken(len, x2, origin2, y2, i, j) && pair_gap(full, i, j) == d);
        }
    }
    assert forall|i: int, j: int| #[trigger] taken(len, x2, origin2, y2, i, j) implies after.contains(
        pair_gap(full, i, j) as i128,
    ) by {
        if !(i == a && j == b) {
            assert(taken(len, x, origin, y, i, j));
        }
    }
    assert forall|i: int, j: int, k: int, l: int|
        #[trigger] taken(len, x2, origin2, y2, i, j) && #[trigger] taken(len, x2, origin2, y2, k, l)
            && (i != k || j != l) implies pair_gap(full, i, j) != pair_gap(full, k, l) by {
        if i == a && j == b {
            assert(taken(len, x, origin, y, k, l));
        } else if k == a && l == b {
            assert(taken(len, x, origin, y, i, j));
        } else {
            assert(taken(len, x, origin, y, i, j));
            assert(taken(len, x, origin, y, k, l));
        }
    }
}

/// The same pairs, told another way.
proof fn lemma_taken_same(
    set: Set<i128>,
    full: Seq<i128>,
    x: int,
    origin: bool,
    y: int,
    x2: int,
    origin2: bool,
    y2: int,
)
    requires
        tracks(set, full, x, origin, y),
        forall|i: int, j: int|
            taken(full.len(), x2, origin2, y2, i, j) <==> taken(full.len(), x, origin, y, i, j),
    ensures
        tracks(set, full, x2, origin2, y2),
{
    let len = full.len();
    assert forall|d: i128| set.contains(d) implies exists|i: int, j: int|
        #[trigger] taken(len, x2, origin2, y2, i, j) && pair_gap(full, i, j) == d by {
        let (i, j) = choose|i: int, j: int|
            #[trigger] taken(len, x, origin, y, i, j) && pair_gap(full, i, j) == d;
        assert(taken(len, x2, origin2, y2, i, j) && pair_gap(full, i, j) == d);
    }
    assert forall|i: int, j: int| #[trigger] taken(len, x2, origin2, y2, i, j) implies set.contains(
        pair_gap(full, i, j) as i128,
    ) by {
        assert(taken(len, x, origin, y, i, j));
    }
    assert forall|i: int, j: int, k: int, l: int|
        #[trigger] taken(len, x2, origin2, y2, i, j) && #[trigger] taken(len, x2, origin2, y2, k, l)
            && (i != k || j != l) implies pair_gap(full, i, j) != pair_gap(full, k, l) by {
        assert(taken(len, x, origin, y, i, j));
        assert(taken(len, x, origin, y, k, l));
    }
}

/// Once every pair is taken the marks have the Golomb property.
proof fn lemma_taken_all(set: Set<i128>, full: Seq<i128>)
    requires
        full.len() >= 1,
        tracks(set, full, full.len() - 1, false, 0),
    ensures
        distinct_gaps(full),
{
    let len = full.len();
    assert forall|i: int, j: int, k: int, l: int|
        0 <= i < j < full.len() && 0 <= k < l < full.len() && (i != k || j != l)
            implies #[trigger] pair_gap(full, i, j) != #[trigger] pair_gap(full, k, l) by {
        assert(taken(len, len - 1, false, 0, i, j));
        assert(taken(len, len - 1, false, 0, k, l));
    }
}

/// The check for the Golomb property.
pub struct Ruler {}

impl Ruler {
    /// Verify if a sequence of marks, given without the mark 0, satisfies the Golomb
    /// property: the distances between any two of the marks, 0 among them, are collected
    /// until one repeats.
    pub fn is_golomb_ruler(sequence: &[GInt]) -> (holds: bool)
        requires
            non_negative(sequence@),
        ensures
            holds == golomb(sequence@),
    {
        broadcast use vstd::std_specs::hash::group_hash_axioms;

        let mut distances: HashSet<GInt> = HashSet::new();
        let n = sequence.len();
        let ghost full = with_origin(sequence@);
        assert(non_negative(full));
        let mut lhs_index: usize = 0;
        while lhs_index < n
            invariant
                lhs_index <= n,
                n == sequence@.len(),
                full == with_origin(sequence@),
                non_negative(full),
                tracks(distances@, full, lhs_index as int, false, 0),
            decreases n - lhs_index,
        {
            let lhs = sequence[lhs_index];
            let diff = lhs;
            assert(diff == pair_gap(full, 0, lhs_index + 1));
            if distances.contains(&diff) {
                proof {
                    lemma_repeated(distances@, full, lhs_index as int, false, 0, 0, lhs_index + 1);
                }
                return false;
            } else {
                proof {
                    lemma_taken_one_more(
                        distances@,
                        full,
                        lhs_index as int,
                        false,
                        0,
                        lhs_index as int,
                        true,
                        lhs_index + 1,
                        0,
                        lhs_index + 1,
                    );
                }
                distances.insert(diff);
            }
            let mut rhs_index: usize = lhs_index + 1;
            while rhs_index < n
                invariant
                    lhs_index < rhs_index <= n,
                    n == sequence@.len(),
                    lhs == sequence@[lhs_index as int],
                    full == with_origin(sequence@),
                    non_negative(full),
                    tracks(distances@, full, lhs_index as int, true, rhs_index as int),
                decreases n - rhs_index,
            {
                let rhs = sequence[rhs_index];
                assert(lhs == full[lhs_index + 1] && rhs == full[rhs_index + 1]);
                let diff = dist(lhs, rhs);
                assert(diff == pair_gap(full, lhs_index + 1, rhs_index + 1));
                if distances.contains(&diff) {
                    proof {
                        lemma_repeated(
                            distances@,
                            full,
                            lhs_index as int,
                            true,
                            rhs_index as int,
                            lhs_index + 1,
                            rhs_index + 1,
                        );
                    }
                    return false;
                } else {
                    proof {
                        lemma_taken_one_more(
                            distances@,
                            full,
                            lhs_index as int,
                            true,
                            rhs_index as int,
                            lhs_index as int,
                            true,
                            rhs_index + 1,
                            lhs_index + 1,
                            rhs_index + 1,
                        );
                    }
                    distances.insert(diff);
                }
                rhs_index += 1;
            }
            proof {
                lemma_taken_same(
                    distances@,
                    full,
                    lhs_index as int,
                    true,
                    rhs_index as int,
                    lhs_index + 1,
                    false,
                    0,
                );
            }
            lhs_index += 1;
        }
        proof {
            lemma_taken_all(distances@, full);
        }
        true
    }

    /// Create the ruler with the given id.
    pub fn from_id(id: u64) -> (ruler: GolombRuler)
        ensures
            ruler@ == id_marks(id as nat),
            ruler.wf(),
    {
        GolombRuler::from_id(id)
    }
}

} // verus!
