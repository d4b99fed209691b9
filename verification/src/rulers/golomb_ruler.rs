//! The ruler as a value.

use crate::rulers::ruler::{golomb, non_negative, pair_gap, with_origin, Ruler};
use crate::rulers::{dist, gap, Distance, GInt};
use std::collections::HashSet;
use vstd::prelude::*;
use vstd::slice::slice_to_vec;

verus! {

/// A ruler, given by its marks in ascending order without the first one, 0, which every
/// ruler has. Whether it is a Golomb ruler is for `is_golomb_ruler` to say.
#[derive(Debug, PartialEq, Eq, PartialOrd, Ord, Hash)]
pub struct GolombRuler {
    pub(crate) marks: Vec<GInt>,
}

impl View for GolombRuler {
    type V = Seq<i128>;

    open(crate) spec fn view(&self) -> Seq<i128> {
        self.marks@
    }
}

impl Clone for GolombRuler {
    fn clone(&self) -> (copy: Self)
        ensures
            copy@ == self@,
    {
        GolombRuler { marks: self.marks.clone() }
    }
}

/// The marks are those of a ruler: positive and ascending.
pub open spec fn is_ruler(marks: Seq<i128>) -> bool {
    &&& forall|i: int| 0 <= i < marks.len() ==> marks[i] >= 1
    &&& forall|i: int, j: int| 0 <= i < j < marks.len() ==> marks[i] < marks[j]
}

/// The length of the ruler with these marks: its last mark, or 0 where it has none but the first.
pub open spec fn ruler_length(marks: Seq<i128>) -> i128 {
    if marks.len() == 0 {
        0
    } else {
        marks.last()
    }
}

/// No mark but the last is as far from the last one as some mark is from 0.
pub open spec fn passes_depth_one(marks: Seq<i128>) -> bool {
    forall|i: int|
        0 <= i < marks.len() - 1 ==> !marks.contains(
            gap(#[trigger] marks[i] as int, marks.last() as int) as i128,
        )
}

/// The distances that start at the mark `i`: the one from 0, then those to the marks after it.
pub open spec fn distances_from(marks: Seq<i128>, i: int) -> Seq<Distance> {
    seq![Distance { lhs: 0, rhs: marks[i], dist: marks[i] }] + Seq::new(
        (marks.len() - 1 - i) as nat,
        |k: int|
            Distance {
                lhs: marks[i],
                rhs: marks[i + 1 + k],
                dist: gap(marks[i] as int, marks[i + 1 + k] as int) as i128,
            },
    )
}

/// The distances that start at one of the first `n` marks, mark by mark.
pub open spec fn distances_before(marks: Seq<i128>, n: nat) -> Seq<Distance>
    decreases n,
{
    if n == 0 {
        Seq::empty()
    } else {
        distances_before(marks, (n - 1) as nat) + distances_from(marks, n - 1)
    }
}

/// A Golomb ruler passes the check one deep: a mark that is as far from the last one as
/// some mark is from 0 makes two pairs of marks the same distance apart.
pub proof fn lemma_golomb_passes_depth_one(marks: Seq<i128>)
    requires
        non_negative(marks),
        golomb(marks),
    ensures
        passes_depth_one(marks),
{
    let full = with_origin(marks);
    assert forall|i: int| 0 <= i < marks.len() - 1 implies !marks.contains(
        gap(#[trigger] marks[i] as int, marks.last() as int) as i128,
    ) by {
        let d = gap(marks[i] as int, marks.last() as int) as i128;
        if marks.contains(d) {
            let k = choose|k: int| 0 <= k < marks.len() && marks[k] == d;
            assert(pair_gap(full, 0, k + 1) == d);
            assert(pair_gap(full, i + 1, marks.len() as int) == d);
        }
    }
}

impl GolombRuler {
    /// The marks are positive and ascending.
    pub open spec fn wf(&self) -> bool {
        is_ruler(self@)
    }

    /// The ruler with the given marks, the mark 0 left out.
    pub fn new(marks: &[GInt]) -> (ruler: Self)
        ensures
            ruler@ == marks@,
    {
        GolombRuler { marks: slice_to_vec(marks) }
    }

    /// The marks, the mark 0 left out.
    pub fn marks(&self) -> (marks: &Vec<GInt>)
        ensures
            marks@ == self@,
    {
        &self.marks
    }

    /// Test if the marks are positive and ascending, as the marks of a ruler are.
    pub fn is_ruler(&self) -> (valid: bool)
        ensures
            valid == self.wf(),
    {
        let n = self.marks.len();
        if n == 0 {
            return true;
        }
        if self.marks[0] < 1 {
            return false;
        }
        let mut i: usize = 1;
        while i < n
            invariant
                1 <= i <= n,
                n == self.marks@.len(),
                self.marks@[0] >= 1,
                forall|k: int, l: int| 0 <= k < l < i ==> self.marks@[k] < self.marks@[l],
            decreases n - i,
        {
            if self.marks[i - 1] >= self.marks[i] {
                return false;
            }
            assert forall|k: int, l: int| 0 <= k < l < i + 1 implies self.marks@[k] < self.marks@[l] by {
                if l == i && k < i - 1 {
                    assert(self.marks@[k] < self.marks@[i - 1]);
                }
            }
            i += 1;
        }
        assert forall|k: int| 0 <= k < n implies self.marks@[k] >= 1 by {
            if k > 0 {
                assert(self.marks@[0] < self.marks@[k]);
            }
        }
        true
    }

    /// The number of marks, the first one counted.
    pub fn order(&self) -> (order: usize)
        requires
            self@.len() < usize::MAX,
        ensures
            order == self@.len() + 1,
    {
        self.marks.len() + 1
    }

    /// The last mark, or 0 where the ruler has none but the first.
    pub fn length(&self) -> (length: GInt)
        ensures
            length == ruler_length(self@),
    {
        if self.marks.len() == 0 {
            return 0;
        }
        self.marks[self.marks.len() - 1]
    }

    /// Check if the marks satisfy the Golomb property.
    pub fn is_golomb_ruler(&self) -> (holds: bool)
        requires
            non_negative(self@),
        ensures
            holds == golomb(self@),
    {
        Ruler::is_golomb_ruler(self.marks.as_slice())
    }

    /// Return the marks as a set.
    pub fn as_set(&self) -> (set: HashSet<GInt>)
        ensures
            set@ == self@.to_set(),
    {
        broadcast use vstd::std_specs::hash::group_hash_axioms;

        let mut out = HashSet::<GInt>::new();
        let mut i: usize = 0;
        while i < self.marks.len()
            invariant
                i <= self.marks@.len(),
                out@ == self.marks@.take(i as int).to_set(),
            decreases self.marks@.len() - i,
        {
            let ghost before = self.marks@.take(i as int);
            let ghost after = self.marks@.take(i + 1);
            out.insert(self.marks[i]);
            proof {
                assert(after =~= before.push(self.marks@[i as int]));
                assert forall|m: i128| after.contains(m) <==> before.to_set().insert(
                    self.marks@[i as int],
                ).contains(m) by {
                    if before.contains(m) {
                        let k = choose|k: int| 0 <= k < before.len() && before[k] == m;
                        assert(after[k] == m);
                    }
                    if m == self.marks@[i as int] {
                        assert(after[i as int] == m);
                    }
                }
                assert(out@ =~= after.to_set());
            }
            i += 1;
        }
        assert(self.marks@.take(i as int) =~= self.marks@);
        out
    }

    /// Check, in one pass over the marks, that no mark but the last is as far from the last
    /// one as some mark is from 0. Every Golomb ruler passes, and the check is cheap: it
    /// serves to drop most rulers before the full check.
    pub fn is_golomb_ruler_order_1(&self) -> (passes: bool)
        requires
            self@.len() >= 1,
            non_negative(self@),
        ensures
            passes == passes_depth_one(self@),
    {
        broadcast use vstd::std_specs::hash::group_hash_axioms;
        // start with the last mark and subtract every other one

        let set = self.as_set();
        let base = self.length();
        let mut i: usize = 0;
        while i < self.marks.len() - 1
            invariant
                i <= self.marks@.len() - 1,
                non_negative(self.marks@),
                base == self.marks@.last(),
                set@ == self.marks@.to_set(),
                forall|k: int|
                    0 <= k < i ==> !self.marks@.contains(
                        gap(#[trigger] self.marks@[k] as int, base as int) as i128,
                    ),
            decreases self.marks@.len() - i,
        {
            let d = dist(self.marks[i], base);
            if set.contains(&d) {
                return false;
            }
            i += 1;
        }
        true
    }

    /// The distances between the marks: for each mark the one from 0, then those to the
    /// marks after it.
    pub fn distances(&self) -> (out: Vec<Distance>)
        requires
            non_negative(self@),
        ensures
            out@ == distances_before(self@, self@.len()),
    {
        let mut out: Vec<Distance> = Vec::new();
        let n = self.marks.len();
        let mut idx: usize = 0;
        while idx < n
            invariant
                idx <= n,
                n == self.marks@.len(),
                non_negative(self.marks@),
                out@ == distances_before(self.marks@, idx as nat),
            decreases n - idx,
        {
            let lhs = self.marks[idx];
            let ghost done = out@;
            out.push(Distance { lhs: 0, rhs: lhs, dist: lhs });
            let mut next: usize = idx + 1;
            while next < n
                invariant
                    idx < next <= n,
                    n == self.marks@.len(),
                    non_negative(self.marks@),
                    lhs == self.marks@[idx as int],
                    out@ == done + distances_from(self.marks@, idx as int).take(next - idx),
                decreases n - next,
            {
                let rhs = self.marks[next];
                out.push(Distance { lhs, rhs, dist: dist(rhs, lhs) });
                next += 1;
                assert(out@ =~= done + distances_from(self.marks@, idx as int).take(next - idx));
            }
            assert(distances_from(self.marks@, idx as int).take(n - idx) =~= distances_from(
                self.marks@,
                idx as int,
            ));
            idx += 1;
        }
        out
    }
}

} // verus!
