//! Operations on the state of a ruler.
//!
//! The state of a ruler is a `Vec<bool>` that tells which lengths are marks on it.
//! The ruler with the marks `[0, 1, 4]` has the state
//! ```text
//! [true, false, false]
//!    1     2      3
//! ```
//! Neither the mark 0 nor the last mark is stored: every ruler has the first, and the
//! last is the length of the state plus one.

use crate::enumeration::bits::{
    all_set, carry_at, cleared, count_set, last_clear, last_set, lemma_carry_value,
    lemma_count_bound, lemma_count_take, lemma_last_clear, lemma_last_set, lemma_state_of_value,
    lemma_value_bound, lemma_value_take, state_of, state_value,
};
use crate::enumeration::steps::{
    lemma_first_from, lemma_first_from_skip, lemma_flip_last, lemma_interior_marks,
    lemma_proposal,
};
use crate::rulers::index::lemma_ruler_marks;
use crate::rulers::{dist, GInt, GolombRuler};
use vstd::arithmetic::power2::{lemma2_to64, lemma_pow2_strictly_increases, pow2};
use vstd::prelude::*;

verus! {

/// The marks between the two ends of the ruler with this state, in ascending order.
pub open spec fn interior_marks(s: Seq<bool>) -> Seq<i128>
    decreases s.len(),
{
    if s.len() == 0 {
        Seq::empty()
    } else if s.last() {
        interior_marks(s.drop_last()).push(s.len() as i128)
    } else {
        interior_marks(s.drop_last())
    }
}

/// The marks of the ruler with this state, without the first one: the interior marks, then
/// the length.
pub open spec fn ruler_marks(s: Seq<bool>) -> Seq<i128> {
    interior_marks(s).push((s.len() + 1) as i128)
}

/// Whether `value` is a mark of the ruler with this state, the two ends counted.
pub open spec fn state_contains(s: Seq<bool>, value: int) -> bool {
    value == 0 || value == s.len() + 1 || (1 <= value <= s.len() && s[value - 1])
}

/// No interior mark is as far from the last mark as some mark is from 0.
///
/// Bit `i` stands for the mark `i + 1`, which is `s.len() - i` away from the last mark.
pub open spec fn depth_one(s: Seq<bool>) -> bool {
    forall|i: int| 0 <= i < s.len() && #[trigger] s[i] ==> !state_contains(s, s.len() - i)
}

/// The state brought to `n` bits by cleared bits at its end.
pub open spec fn extended(s: Seq<bool>, n: nat) -> Seq<bool> {
    s + cleared((n - s.len()) as nat)
}

/// What `jump_back` makes of a state: the last run of set bits is cleared and the bit before it
/// set. A state without a set bit stays; where the run starts at the first bit, nothing is set.
pub open spec fn jumped_back(s: Seq<bool>) -> Seq<bool> {
    if last_set(s) < 0 {
        s
    } else {
        carry_at(s, last_clear(s.take(last_set(s))))
    }
}

/// The views of an optional state.
pub open spec fn viewed(r: Option<Vec<bool>>) -> Option<Seq<bool>> {
    match r {
        Some(t) => Some(t@),
        None => None,
    }
}

/// The step of the exhaustive traversal for rulers of length `length`: a shorter state is
/// brought to full length, a full one counts up by one, and the one with every bit set is
/// the last.
pub open spec fn next_state(s: Seq<bool>, length: nat) -> Option<Seq<bool>> {
    if s.len() + 1 > length {
        None
    } else if s.len() + 1 < length {
        Some(extended(s, (length - 1) as nat))
    } else if all_set(s) {
        None
    } else {
        Some(state_of(state_value(s) + 1, s.len()))
    }
}

/// The first state of `n` bits, counting up from the one that spells `v`, that is wanted.
pub open spec fn first_from(v: nat, n: nat, wanted: spec_fn(Seq<bool>) -> bool) -> Option<
    Seq<bool>,
>
    decreases pow2(n) - v,
{
    if v >= pow2(n) {
        None
    } else if wanted(state_of(v, n)) {
        Some(state_of(v, n))
    } else {
        first_from(v + 1, n, wanted)
    }
}

/// The states with `k` set bits.
pub open spec fn with_count(k: int) -> spec_fn(Seq<bool>) -> bool {
    |s: Seq<bool>| count_set(s) == k
}

/// The states with `k` set bits that pass the check of `depth_one`.
pub open spec fn with_count_and_depth(k: int) -> spec_fn(Seq<bool>) -> bool {
    |s: Seq<bool>| count_set(s) == k && depth_one(s)
}

/// The step of the traversal that keeps to rulers of `order` marks: the state is brought to
/// full length, and the next one above it with `order - 2` set bits follows.
pub open spec fn pruned_next(s: Seq<bool>, order: int, length: nat) -> Option<Seq<bool>> {
    if s.len() + 1 > length {
        None
    } else {
        first_from(
            state_value(extended(s, (length - 1) as nat)) + 1,
            (length - 1) as nat,
            with_count(order - 2),
        )
    }
}

/// The step of the traversal that also asks for `depth_one`.
pub open spec fn depth_next(s: Seq<bool>, order: int, length: nat) -> Option<Seq<bool>> {
    if s.len() + 1 > length {
        None
    } else {
        first_from(
            state_value(extended(s, (length - 1) as nat)) + 1,
            (length - 1) as nat,
            with_count_and_depth(order - 2),
        )
    }
}

/// What the pruned traversal proposes after a full state `s`, which may not yet have
/// `order` marks. After a cleared last bit: a state with `order` marks is done if its set
/// bits all stand at the front, else it jumps back; any other state gets its last bit set.
/// After a set last bit the state counts up by one, and the one with every bit set is the
/// last.
pub open spec fn proposal(s: Seq<bool>, order: int) -> Option<Seq<bool>> {
    if !s.last() {
        if count_set(s) + 2 == order {
            if all_set(s.take(order - 2)) {
                None
            } else {
                Some(jumped_back(s))
            }
        } else {
            Some(s.update(s.len() - 1, true))
        }
    } else if all_set(s) {
        None
    } else {
        Some(carry_at(s, last_clear(s)))
    }
}

/// The operations of a traversal on a state.
pub trait RulerState: View<V = Seq<bool>> {
    /// The number that the state spells as a binary numeral, if it has no more than 64 bits.
    fn to_u64(&self) -> (value: Option<u64>)
        ensures
            self@.len() <= 64 ==> value == Some(state_value(self@) as u64),
            self@.len() > 64 ==> value.is_none(),
    ;

    /// Count the marks that the state holds between the two ends.
    fn count_marks(&self) -> (count: usize)
        ensures
            count == count_set(self@),
    ;

    /// The number of marks of the ruler, its two ends counted.
    fn total_marks(&self) -> (count: usize)
        requires
            self@.len() + 2 <= usize::MAX,
        ensures
            count == count_set(self@) + 2,
    ;

    /// Test if every bit of the state is set.
    fn all(&self) -> (every: bool)
        ensures
            every == all_set(self@),
    ;

    /// Append a cleared bit to the state.
    fn go_left(&self) -> (left: Vec<bool>)
        ensures
            left@ == self@.push(false),
    ;

    /// Set the last bit of the state.
    fn back_one_then_right(&self) -> (right: Vec<bool>)
        requires
            self@.len() > 0,
        ensures
            right@ == self@.update(self@.len() - 1, true),
    ;

    /// Set the last cleared bit and clear every bit after it, as a counter does that counts up
    /// by one: `0111` becomes `1000`. A state with every bit set has no next one.
    fn backtrack(&self) -> (back: Option<Vec<bool>>)
        ensures
            all_set(self@) ==> back.is_none(),
            !all_set(self@) ==> viewed(back) == Some(carry_at(self@, last_clear(self@))),
    ;

    /// Set the last cleared bit. A state with every bit set takes no further mark.
    fn add_mark(&self) -> (added: Option<Vec<bool>>)
        ensures
            all_set(self@) ==> added.is_none(),
            !all_set(self@) ==> viewed(added) == Some(self@.update(last_clear(self@), true)),
    ;

    /// Clear the last run of set bits and set the bit before it: with two set bits, `010`
    /// becomes `100`, not `011`.
    fn jump_back(&self) -> (back: Vec<bool>)
        ensures
            back@ == jumped_back(self@),
    ;

    /// The state as a text of the digits 0 and 1.
    fn to_string(&self) -> (text: String)
        ensures
            text@ == Seq::new(self@.len(), |i: int| if self@[i] { '1' } else { '0' }),
    ;

    /// Convert the state into the ruler it stands for.
    fn to_ruler(&self) -> (ruler: GolombRuler)
        ensures
            ruler@ == ruler_marks(self@),
            ruler.wf(),
    ;

    /// Check if `value` is a mark of the ruler, the two ends counted.
    fn contains(&self, value: GInt) -> (found: bool)
        ensures
            found == state_contains(self@, value as int),
    ;

    /// Check, in one pass over the marks, that no interior mark is as far from the last mark
    /// as some mark is from 0. Every Golomb ruler passes.
    fn is_golomb_ruler_order_1(&self) -> (passes: bool)
        ensures
            passes == depth_one(self@),
    ;

    /// The state that follows in the traversal of all rulers of length `length`.
    fn next(&self, length: usize) -> (next: Option<Vec<bool>>)
        requires
            length >= 2,
        ensures
            viewed(next) == next_state(self@, length as nat),
    ;

    /// What the pruned traversal proposes after this state.
    fn pruned_propose_next(&self, order: usize) -> (next: Option<Vec<bool>>)
        requires
            self@.len() >= 1,
        ensures
            viewed(next) == proposal(self@, order as int),
    ;

    /// The state that follows in the traversal of the rulers of `order` marks and length `length`.
    fn next_pruned(&self, order: usize, length: usize) -> (next: Option<Vec<bool>>)
        requires
            length >= 2,
        ensures
            viewed(next) == pruned_next(self@, order as int, length as nat),
    ;

    /// The state that follows in the traversal of the rulers of `order` marks and length
    /// `length` that pass the check of `is_golomb_ruler_order_1`.
    fn next_golomb_depth_1(&self, order: usize, length: usize) -> (next: Option<Vec<bool>>)
        requires
            length >= 2,
        ensures
            viewed(next) == depth_next(self@, order as int, length as nat),
    ;
}

/// The state brought to `n` bits by cleared bits at its end.
fn extend_to(state: &Vec<bool>, n: usize) -> (out: Vec<bool>)
    requires
        state@.len() <= n,
    ensures
        out@ == extended(state@, n as nat),
{
    let mut out = state.clone();
    assert(out@ =~= extended(state@, out@.len()));
    while out.len() != n
        invariant
            state@.len() <= out@.len() <= n,
            out@ == extended(state@, out@.len()),
        decreases n - out@.len(),
    {
        out = out.go_left();
        assert(out@ =~= extended(state@, out@.len()));
    }
    out
}

/// Test if the first `k` bits of the state are set.
fn leading_set(state: &Vec<bool>, k: usize) -> (every: bool)
    requires
        k <= state@.len(),
    ensures
        every == all_set(state@.take(k as int)),
{
    let mut i: usize = 0;
    while i < k
        invariant
            i <= k <= state@.len(),
            forall|j: int| 0 <= j < i ==> state@[j],
        decreases k - i,
    {
        if !state[i] {
            assert(!state@.take(k as int)[i as int]);
            return false;
        }
        i += 1;
    }
    true
}

impl RulerState for Vec<bool> {
    fn to_u64(&self) -> (value: Option<u64>) {
        let n = self.len();
        if n > 64 {
            None
        } else {
            let mut value: u64 = 0;
            let mut i: usize = 0;
            while i < n
                invariant
                    i <= n <= 64,
                    n == self@.len(),
                    value == state_value(self@.take(i as int)),
                decreases n - i,
            {
                proof {
                    lemma_value_take(self@, i as int);
                    lemma_value_bound(self@.take(i + 1));
                    lemma2_to64();
                    if i + 1 < 64 {
                        lemma_pow2_strictly_increases((i + 1) as nat, 64);
                    }
                }
                let bit: u64 = if self[i] { 1 } else { 0 };
                value = 2 * value + bit;
                i += 1;
            }
            assert(self@.take(n as int) =~= self@);
            Some(value)
        }
    }

    fn count_marks(&self) -> (count: usize) {
        let mut count: usize = 0;
        let mut i: usize = 0;
        while i < self.len()
            invariant
                i <= self@.len(),
                count <= i,
                count == count_set(self@.take(i as int)),
            decreases self@.len() - i,
        {
            proof {
                lemma_count_take(self@, i as int);
            }
            if self[i] {
                count += 1;
            }
            i += 1;
        }
        assert(self@.take(i as int) =~= self@);
        count
    }

    fn total_marks(&self) -> (count: usize) {
        proof {
            lemma_count_bound(self@);
        }
        self.count_marks() + 2
    }

    fn all(&self) -> (every: bool) {
        let mut i: usize = 0;
        while i < self.len()
            invariant
                i <= self@.len(),
                forall|j: int| 0 <= j < i ==> self@[j],
            decreases self@.len() - i,
        {
            if !self[i] {
                return false;
            }
            i += 1;
        }
        true
    }

    fn go_left(&self) -> (left: Vec<bool>) {
        let mut out = self.clone();
        assert(out@ =~= self@);
        out.push(false);
        out
    }

    fn back_one_then_right(&self) -> (right: Vec<bool>) {
        let mut out = self.clone();
        assert(out@ =~= self@);
        out.set(self.len() - 1, true);
        out
    }

    fn backtrack(&self) -> (back: Option<Vec<bool>>) {
        let mut out = self.clone();
        assert(out@ =~= self@);
        let mut i: usize = self.len();
        while i > 0
            invariant
                i <= self@.len(),
                out@.len() == self@.len(),
                forall|j: int| 0 <= j < i ==> out@[j] == self@[j],
                forall|j: int| i <= j < self@.len() ==> self@[j] && !out@[j],
            decreases i,
        {
            i -= 1;
            if out[i] {
                out.set(i, false);
            } else {
                out.set(i, true);
                proof {
                    lemma_last_clear(self@);
                    assert(out@ =~= carry_at(self@, i as int));
                }
                return Some(out);
            }
        }
        None
    }

    fn add_mark(&self) -> (added: Option<Vec<bool>>) {
        let mut out = self.clone();
        assert(out@ =~= self@);
        let mut i: usize = self.len();
        while i > 0
            invariant
                i <= self@.len(),
                out@ == self@,
                forall|j: int| i <= j < self@.len() ==> self@[j],
            decreases i,
        {
            i -= 1;
            if !self[i] {
                out.set(i, true);
                proof {
                    lemma_last_clear(self@);
                }
                return Some(out);
            }
        }
        None
    }

    fn jump_back(&self) -> (back: Vec<bool>) {
        let mut out = self.clone();
        assert(out@ =~= self@);
        let n = out.len();
        let mut i: usize = n;
        while i > 0 && !out[i - 1]
            invariant
                i <= n,
                n == self@.len(),
                out@ == self@,
                forall|x: int| i <= x < n ==> !self@[x],
            decreases i,
        {
            i -= 1;
        }
        proof {
            lemma_last_set(self@);
        }
        if i == 0 {
            return out;
        }
        let j = i - 1;
        out.set(j, false);
        let mut i: usize = j;
        while i > 0 && out[i - 1]
            invariant
                i <= j < n,
                n == self@.len(),
                out@.len() == n,
                forall|x: int| 0 <= x < i ==> out@[x] == self@[x],
                forall|x: int| i <= x < n ==> !out@[x],
                forall|x: int| i <= x < j ==> self@[x],
            decreases i,
        {
            i -= 1;
            out.set(i, false);
        }
        if i > 0 {
            out.set(i - 1, true);
        }
        proof {
            let front = self@.take(j as int);
            lemma_last_clear(front);
            assert forall|x: int| 0 <= x < j implies front[x] == self@[x] by {}
            if i > 0 {
                assert(!front[i - 1]);
            }
            assert(last_clear(front) == i - 1);
            assert(out@ =~= carry_at(self@, i - 1));
        }
        out
    }

    fn to_string(&self) -> (text: String) {
        let mut text = String::new();
        let mut i: usize = 0;
        while i < self.len()
            invariant
                i <= self@.len(),
                text@ == Seq::new(i as nat, |x: int| if self@[x] { '1' } else { '0' }),
            decreases self@.len() - i,
        {
            proof {
                reveal_strlit("1");
                reveal_strlit("0");
            }
            if self[i] {
                text.append("1");
            } else {
                text.append("0");
            }
            i += 1;
            assert(text@ =~= Seq::new(i as nat, |x: int| if self@[x] { '1' } else { '0' }));
        }
        text
    }

    fn to_ruler(&self) -> (ruler: GolombRuler) {
        // 0 is implied, and so is the last mark
        let mut marks: Vec<GInt> = Vec::new();
        let mut idx: usize = 0;
        while idx < self.len()
            invariant
                idx <= self@.len(),
                marks@ == interior_marks(self@.take(idx as int)),
            decreases self@.len() - idx,
        {
            assert(self@.take(idx + 1).drop_last() =~= self@.take(idx as int));
            if self[idx] {
                marks.push(idx as GInt + 1);
            }
            idx += 1;
        }
        assert(self@.take(idx as int) =~= self@);
        marks.push(self.len() as GInt + 1);
        proof {
            lemma_ruler_marks(self@);
        }
        GolombRuler { marks }
    }

    fn contains(&self, value: GInt) -> (found: bool) {
        let length: GInt = self.len() as GInt + 1;
        if value < 0 {
            return false;
        }
        if value == 0 || value == length {
            true
        } else if value > length {
            false
        } else {
            self[(value - 1) as usize]
        }
    }

    fn is_golomb_ruler_order_1(&self) -> (passes: bool) {
        let ruler = self.to_ruler();
        let count = ruler.marks.len();
        let base = ruler.marks[count - 1];
        proof {
            assert(self@.len() == self.len());
            lemma_interior_marks(self@);
        }
        if count <= 1 {
            return true;
        }
        let ghost inner = interior_marks(self@);
        let mut i: usize = 0;
        while i < count - 1
            invariant
                i <= count - 1,
                count == ruler.marks@.len(),
                ruler.marks@ == ruler_marks(self@),
                inner == interior_marks(self@),
                count == inner.len() + 1,
                base == self@.len() + 1,
                forall|k: int|
                    0 <= k < inner.len() ==> 1 <= #[trigger] inner[k] <= self@.len() && self@[inner[k]
                        - 1],
                forall|k: int| 0 <= k < i ==> !state_contains(self@, base - #[trigger] inner[k]),
            decreases count - i,
        {
            let m = ruler.marks[i];
            assert(m == inner[i as int]);
            let d = dist(m, base);
            if self.contains(d) {
                assert(self@[m - 1]);
                return false;
            }
            i += 1;
        }
        assert forall|b: int| 0 <= b < self@.len() && #[trigger] self@[b] implies !state_contains(
            self@,
            self@.len() - b,
        ) by {
            let k = choose|k: int| 0 <= k < inner.len() && inner[k] == (b + 1) as i128;
            assert(!state_contains(self@, base - inner[k]));
        }
        true
    }

    fn next(&self, length: usize) -> (next: Option<Vec<bool>>) {
        if self.len() > length - 1 {
            return None;
        }
        if self.len() < length - 1 {
            // always go to the left
            Some(extend_to(self, length - 1))
        } else {
            // a cleared last bit is set: back one, then to the right
            if !self[self.len() - 1] {
                proof {
                    lemma_flip_last(self@);
                    lemma_state_of_value(self@.update(self@.len() - 1, true));
                    assert(!all_set(self@));
                }
                Some(self.back_one_then_right())
            } else {
                // back track, unless the traversal is at its end
                if self.all() {
                    None
                } else {
                    proof {
                        lemma_carry_value(self@);
                        lemma_state_of_value(carry_at(self@, last_clear(self@)));
                    }
                    self.backtrack()
                }
            }
        }
    }

    fn pruned_propose_next(&self, order: usize) -> (next: Option<Vec<bool>>) {
        proof {
            lemma_count_bound(self@);
            lemma_last_clear(self@);
        }
        // a cleared last bit may be set, if the ruler can take one more mark
        if !self[self.len() - 1] {
            let interior = self.count_marks();
            if order >= 2 && interior == order - 2 {
                // done once the marks all stand at the front
                if leading_set(self, order - 2) {
                    None
                } else {
                    Some(self.jump_back())
                }
            } else {
                self.add_mark()
            }
        } else {
            // back track, unless the traversal is at its end
            if self.all() {
                None
            } else {
                self.backtrack()
            }
        }
    }

    fn next_pruned(&self, order: usize, length: usize) -> (next: Option<Vec<bool>>) {
        if self.len() > length - 1 {
            return None;
        }
        let start = extend_to(self, length - 1);
        let ghost n = start@.len();
        let ghost wanted = with_count(order - 2);
        let ghost goal = first_from(state_value(start@) + 1, n, wanted);
        proof {
            lemma_proposal(start@, order as int);
        }
        let mut next = match start.pruned_propose_next(order) {
            Some(proposed) => proposed,
            None => {
                return None;
            },
        };
        loop
            invariant
                n >= 1,
                next@.len() == n,
                wanted == with_count(order - 2),
                goal == pruned_next(self@, order as int, length as nat),
                goal == first_from(state_value(next@), n, wanted),
            decreases pow2(n) - state_value(next@),
        {
            proof {
                lemma_value_bound(next@);
                lemma_state_of_value(next@);
                lemma_proposal(next@, order as int);
            }
            let interior = next.count_marks();
            if order >= 2 && interior == order - 2 {
                return Some(next);
            }
            next = match next.pruned_propose_next(order) {
                Some(proposed) => proposed,
                None => {
                    return None;
                },
            };
            proof {
                lemma_value_bound(next@);
            }
        }
    }

    fn next_golomb_depth_1(&self, order: usize, length: usize) -> (next: Option<Vec<bool>>) {
        if self.len() > length - 1 {
            return None;
        }
        let ghost n = (length - 1) as nat;
        let ghost start = extended(self@, n);
        let ghost counted = with_count(order - 2);
        let ghost wanted = with_count_and_depth(order - 2);
        let ghost goal = first_from(state_value(start) + 1, n, wanted);
        proof {
            lemma_value_bound(start);
        }
        // first the next ruler of that order
        let mut next_pruned = match self.next_pruned(order, length) {
            Some(state) => state,
            None => {
                proof {
                    lemma_first_from(state_value(start) + 1, n, counted);
                    lemma_first_from_skip(state_value(start) + 1, pow2(n), n, wanted);
                }
                return None;
            },
        };
        proof {
            lemma_first_from(state_value(start) + 1, n, counted);
            lemma_first_from_skip(state_value(start) + 1, state_value(next_pruned@), n, wanted);
        }
        loop
            invariant
                length >= 2,
                n == length - 1,
                next_pruned@.len() == n,
                count_set(next_pruned@) == order - 2,
                counted == with_count(order - 2),
                wanted == with_count_and_depth(order - 2),
                goal == depth_next(self@, order as int, length as nat),
                goal == first_from(state_value(next_pruned@), n, wanted),
            decreases pow2(n) - state_value(next_pruned@),
        {
            proof {
                lemma_value_bound(next_pruned@);
                lemma_state_of_value(next_pruned@);
            }
            if next_pruned.is_golomb_ruler_order_1() {
                return Some(next_pruned);
            }
            let ghost before = next_pruned@;
            proof {
                assert(extended(before, n) =~= before);
                lemma_first_from(state_value(before) + 1, n, counted);
            }
            next_pruned = match next_pruned.next_pruned(order, length) {
                Some(state) => state,
                None => {
                    proof {
                        lemma_first_from_skip(state_value(before) + 1, pow2(n), n, wanted);
                    }
                    return None;
                },
            };
            proof {
                lemma_first_from_skip(
                    state_value(before) + 1,
                    state_value(next_pruned@),
                    n,
                    wanted,
                );
            }
        }
    }
}

} // verus!
