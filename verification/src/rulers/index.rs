//! Rulers and natural numbers, one for one: the ruler with the id `id` has the mark `i + 1`
//! exactly where bit `i` of `id` is set. The highest set bit so gives the length, and the
//! bits below it the marks between the two ends.

use crate::enumeration::bits::{count_set, lemma_count_bound};
use crate::enumeration::steps::lemma_interior_marks;
use crate::enumeration::state::{interior_marks, pruned_next, ruler_marks, RulerState};
use crate::rulers::golomb_ruler::{is_ruler, ruler_length};
use crate::rulers::{GInt, GolombRuler};
use vstd::arithmetic::div_mod::{lemma_div_denominator, lemma_small_mod};
use vstd::arithmetic::power2::{
    lemma2_to64, lemma_pow2_pos, lemma_pow2_strictly_increases, lemma_pow2_unfold, pow2,
};
use vstd::prelude::*;

verus! {

/// Whether bit `i` of `id` is set.
pub open spec fn bit_of(id: nat, i: nat) -> bool {
    (id / pow2(i)) % 2 == 1
}

/// The number of bits that it takes to write `id`.
pub open spec fn width(id: nat) -> nat
    decreases id,
{
    if id == 0 {
        0
    } else {
        1 + width(id / 2)
    }
}

/// The marks, ascending, that the lowest `n` bits of `id` stand for.
pub open spec fn low_marks(id: nat, n: nat) -> Seq<i128>
    decreases n,
{
    if n == 0 {
        Seq::empty()
    } else if bit_of(id, (n - 1) as nat) {
        low_marks(id, (n - 1) as nat).push(n as i128)
    } else {
        low_marks(id, (n - 1) as nat)
    }
}

/// The marks of the ruler with the id `id`, without the mark 0.
pub open spec fn id_marks(id: nat) -> Seq<i128> {
    low_marks(id, width(id))
}

/// The id of the ruler with these marks: the mark `m` sets the bit `m - 1`.
pub open spec fn ruler_id(marks: Seq<i128>) -> nat
    decreases marks.len(),
{
    if marks.len() == 0 {
        0
    } else {
        ruler_id(marks.drop_last()) + pow2((marks.last() - 1) as nat)
    }
}

/// The state of the ruler with these marks: bit `i` tells whether `i + 1` is one of them.
pub open spec fn marks_state(marks: Seq<i128>) -> Seq<bool> {
    if marks.len() == 0 {
        Seq::empty()
    } else {
        Seq::new((marks.last() - 1) as nat, |i: int| marks.contains((i + 1) as i128))
    }
}

/// Two ascending sequences with the same members are the same sequence.
pub proof fn lemma_ascending_unique(a: Seq<i128>, b: Seq<i128>)
    requires
        forall|i: int, j: int| 0 <= i < j < a.len() ==> a[i] < a[j],
        forall|i: int, j: int| 0 <= i < j < b.len() ==> b[i] < b[j],
        forall|m: i128| a.contains(m) <==> b.contains(m),
    ensures
        a == b,
    decreases a.len(),
{
    if a.len() == 0 {
        if b.len() > 0 {
            assert(b.contains(b[0]));
        }
        assert(a =~= b);
    } else {
        assert(a.contains(a.last()));
        assert(a.last() <= b.last()) by {
            let k = choose|k: int| 0 <= k < b.len() && b[k] == a.last();
            if k < b.len() - 1 {
                assert(b[k] < b[b.len() - 1]);
            }
        }
        assert(b.last() <= a.last()) by {
            assert(b.contains(b.last()));
            let k = choose|k: int| 0 <= k < a.len() && a[k] == b.last();
            if k < a.len() - 1 {
                assert(a[k] < a[a.len() - 1]);
            }
        }
        let s = a.drop_last();
        let t = b.drop_last();
        assert forall|m: i128| s.contains(m) <==> t.contains(m) by {
            if s.contains(m) {
                let k = choose|k: int| 0 <= k < s.len() && s[k] == m;
                assert(a[k] == m);
                assert(a.contains(m));
                let l = choose|l: int| 0 <= l < b.len() && b[l] == m;
                assert(l < b.len() - 1);
                assert(t[l] == m);
            }
            if t.contains(m) {
                let k = choose|k: int| 0 <= k < t.len() && t[k] == m;
                assert(b[k] == m);
                assert(b.contains(m));
                let l = choose|l: int| 0 <= l < a.len() && a[l] == m;
                assert(l < a.len() - 1);
                assert(s[l] == m);
            }
        }
        lemma_ascending_unique(s, t);
        assert(a =~= s.push(a.last()));
        assert(b =~= t.push(b.last()));
    }
}

/// The marks of a state make a ruler, whose length is one more than the state has bits.
pub proof fn lemma_ruler_marks(s: Seq<bool>)
    requires
        s.len() < i128::MAX,
    ensures
        is_ruler(ruler_marks(s)),
        ruler_length(ruler_marks(s)) == s.len() + 1,
        ruler_marks(s).len() == count_set(s) + 1 <= s.len() + 1,
        marks_state(ruler_marks(s)) == s,
{
    lemma_interior_marks(s);
    lemma_count_bound(s);
    let inner = interior_marks(s);
    let marks = ruler_marks(s);
    assert forall|i: int| 0 <= i < marks.len() implies marks[i] >= 1 by {
        if i < inner.len() {
            assert(marks[i] == inner[i]);
        }
    }
    assert forall|i: int, j: int| 0 <= i < j < marks.len() implies marks[i] < marks[j] by {
        assert(marks[i] == inner[i]);
        if j < inner.len() {
            assert(marks[j] == inner[j]);
        }
    }
    let back = marks_state(marks);
    assert forall|i: int| 0 <= i < s.len() implies back[i] == s[i] by {
        if s[i] {
            let k = choose|k: int| 0 <= k < inner.len() && inner[k] == (i + 1) as i128;
            assert(marks[k] == (i + 1) as i128);
        }
        if marks.contains((i + 1) as i128) {
            let k = choose|k: int| 0 <= k < marks.len() && marks[k] == (i + 1) as i128;
            assert(inner[k] == (i + 1) as i128);
            assert(inner.contains((i + 1) as i128));
        }
    }
    assert(back =~= s);
}

/// A ruler of length one or more is the ruler of its state.
pub proof fn lemma_marks_state(marks: Seq<i128>)
    requires
        is_ruler(marks),
        marks.len() >= 1,
    ensures
        marks_state(marks).len() == marks.last() - 1,
        ruler_marks(marks_state(marks)) == marks,
{
    let s = marks_state(marks);
    let inner = interior_marks(s);
    let again = ruler_marks(s);
    lemma_interior_marks(s);
    lemma_ruler_marks(s);
    assert forall|m: i128| again.contains(m) <==> marks.contains(m) by {
        if again.contains(m) {
            let k = choose|k: int| 0 <= k < again.len() && again[k] == m;
            if k < inner.len() {
                assert(inner[k] == m);
                assert(s[m - 1]);
            } else {
                assert(marks.contains(marks.last()));
            }
        }
        if marks.contains(m) {
            let k = choose|k: int| 0 <= k < marks.len() && marks[k] == m;
            if k == marks.len() - 1 {
                assert(again[again.len() - 1] == m);
            } else {
                assert(s[m - 1]);
                assert(inner.contains(m));
                let l = choose|l: int| 0 <= l < inner.len() && inner[l] == m;
                assert(again[l] == m);
            }
        }
    }
    lemma_ascending_unique(again, marks);
}

/// The marks that the low bits of an id stand for are the interior marks of the state
/// with those bits.
pub proof fn lemma_low_marks_state(id: nat, s: Seq<bool>)
    requires
        forall|i: int| 0 <= i < s.len() ==> s[i] == bit_of(id, i as nat),
    ensures
        low_marks(id, s.len()) == interior_marks(s),
    decreases s.len(),
{
    if s.len() > 0 {
        let t = s.drop_last();
        assert forall|i: int| 0 <= i < t.len() implies t[i] == bit_of(id, i as nat) by {
            assert(t[i] == s[i]);
        }
        lemma_low_marks_state(id, t);
    }
}

/// A number that leaves 1 when its lowest `n` bits are dropped is `n + 1` bits wide.
pub proof fn lemma_width(id: nat, n: nat)
    requires
        id / pow2(n) == 1,
    ensures
        width(id) == n + 1,
    decreases n,
{
    if n == 0 {
        lemma2_to64();
        assert(width(1) == 1 + width(0));
    } else {
        lemma_pow2_unfold(n);
        lemma_pow2_pos((n - 1) as nat);
        lemma_div_denominator(id as int, 2, pow2((n - 1) as nat) as int);
        assert(2 * pow2((n - 1) as nat) == pow2(n));
        lemma_width(id / 2, (n - 1) as nat);
    }
}

/// A number is below two to its width, and no narrower number is.
pub proof fn lemma_width_bound(id: nat)
    ensures
        id < pow2(width(id)),
        id > 0 ==> pow2((width(id) - 1) as nat) <= id,
    decreases id,
{
    if id == 0 {
        lemma_pow2_pos(0);
    } else {
        lemma_width_bound(id / 2);
        lemma_pow2_unfold(width(id));
        if id / 2 > 0 {
            lemma_pow2_unfold(width(id / 2));
        } else {
            lemma2_to64();
        }
    }
}

/// The marks of an id make a ruler, whose length is the width of the id.
pub proof fn lemma_low_marks(id: nat, n: nat)
    requires
        n <= i128::MAX,
    ensures
        is_ruler(low_marks(id, n)),
        forall|k: int| 0 <= k < low_marks(id, n).len() ==> #[trigger] low_marks(id, n)[k] <= n,
        n > 0 && bit_of(id, (n - 1) as nat) ==> ruler_length(low_marks(id, n)) == n,
    decreases n,
{
    if n > 0 {
        lemma_low_marks(id, (n - 1) as nat);
    }
}

/// The id of the marks that the lowest `n` bits of a number stand for is what those bits spell.
pub proof fn lemma_id_of_low_marks(id: nat, n: nat)
    requires
        n <= i128::MAX,
    ensures
        ruler_id(low_marks(id, n)) == id % pow2(n),
    decreases n,
{
    if n == 0 {
        lemma2_to64();
    } else {
        let below = low_marks(id, (n - 1) as nat);
        let p = pow2((n - 1) as nat);
        lemma_id_of_low_marks(id, (n - 1) as nat);
        lemma_pow2_pos((n - 1) as nat);
        lemma_pow2_unfold(n);
        vstd::arithmetic::div_mod::lemma_breakdown(id as int, p as int, 2);
        assert(p * 2 == pow2(n));
        if bit_of(id, (n - 1) as nat) {
            assert(below.push(n as i128).drop_last() =~= below);
            assert(p * 1 == p);
        } else {
            assert((id / p) % 2 == 0);
            assert(p * 0 == 0);
        }
    }
}

/// One more mark of a prefix adds its bit to the id.
pub proof fn lemma_id_take(marks: Seq<i128>, i: int)
    requires
        0 <= i < marks.len(),
    ensures
        ruler_id(marks.take(i + 1)) == ruler_id(marks.take(i)) + pow2((marks[i] - 1) as nat),
{
    assert(marks.take(i + 1).drop_last() =~= marks.take(i));
}

/// The id of a prefix is no more than the id of the whole.
pub proof fn lemma_id_prefix(marks: Seq<i128>, i: int)
    requires
        0 <= i <= marks.len(),
    ensures
        ruler_id(marks.take(i)) <= ruler_id(marks),
    decreases marks.len() - i,
{
    if i == marks.len() {
        assert(marks.take(i) =~= marks);
    } else {
        lemma_id_take(marks, i);
        lemma_id_prefix(marks, i + 1);
    }
}

/// The id of a ruler has its highest bit where the last mark sets it.
pub proof fn lemma_id_bounds(marks: Seq<i128>)
    requires
        is_ruler(marks),
        marks.len() >= 1,
    ensures
        pow2((marks.last() - 1) as nat) <= ruler_id(marks) < pow2(marks.last() as nat),
    decreases marks.len(),
{
    let rest = marks.drop_last();
    let last = marks.last();
    lemma_pow2_unfold(last as nat);
    lemma_pow2_pos((last - 1) as nat);
    if rest.len() == 0 {
        assert(ruler_id(rest) == 0);
    } else {
        assert(is_ruler(rest));
        lemma_id_bounds(rest);
        assert(rest.last() == marks[marks.len() - 2]);
        if rest.last() < last - 1 {
            lemma_pow2_strictly_increases(rest.last() as nat, (last - 1) as nat);
        }
    }
}

/// Two rulers with one id are one ruler.
pub proof fn lemma_id_injective(a: Seq<i128>, b: Seq<i128>)
    requires
        is_ruler(a),
        is_ruler(b),
        ruler_id(a) == ruler_id(b),
    ensures
        a == b,
    decreases a.len(),
{
    if a.len() == 0 || b.len() == 0 {
        if a.len() > 0 {
            lemma_id_bounds(a);
            lemma_pow2_pos((a.last() - 1) as nat);
        }
        if b.len() > 0 {
            lemma_id_bounds(b);
            lemma_pow2_pos((b.last() - 1) as nat);
        }
        assert(a =~= b);
    } else {
        lemma_id_bounds(a);
        lemma_id_bounds(b);
        if a.last() < b.last() {
            if a.last() < b.last() - 1 {
                lemma_pow2_strictly_increases(a.last() as nat, (b.last() - 1) as nat);
            }
        }
        if b.last() < a.last() {
            if b.last() < a.last() - 1 {
                lemma_pow2_strictly_increases(b.last() as nat, (a.last() - 1) as nat);
            }
        }
        assert(a.last() == b.last());
        assert(is_ruler(a.drop_last()));
        assert(is_ruler(b.drop_last()));
        lemma_id_injective(a.drop_last(), b.drop_last());
        assert(a =~= a.drop_last().push(a.last()));
        assert(b =~= b.drop_last().push(b.last()));
    }
}

/// From an id to its ruler and back: the ruler of an id is a ruler as long as the id is
/// wide, and its id is the id.
pub proof fn lemma_encode_decode(id: u64)
    ensures
        is_ruler(id_marks(id as nat)),
        ruler_length(id_marks(id as nat)) == width(id as nat) <= 64,
        ruler_id(id_marks(id as nat)) == id,
{
    let n = width(id as nat);
    lemma_width_bound(id as nat);
    lemma2_to64();
    if n > 64 {
        lemma_pow2_strictly_increases(64, (n - 1) as nat);
    }
    lemma_low_marks(id as nat, n);
    lemma_id_of_low_marks(id as nat, n);
    lemma_small_mod(id as nat, pow2(n));
    if id > 0 {
        let p = pow2((n - 1) as nat);
        lemma_pow2_unfold(n);
        lemma_pow2_pos((n - 1) as nat);
        assert(id as nat / p == 1) by (nonlinear_arith)
            requires
                p <= id < 2 * p,
                p > 0,
        ;
    }
}

/// From a ruler to its id and back: the ruler of the id of a ruler is that ruler, and
/// a ruler no longer than 64 has an id below `2^64`.
pub proof fn lemma_decode_encode(marks: Seq<i128>)
    requires
        is_ruler(marks),
    ensures
        id_marks(ruler_id(marks)) == marks,
        ruler_length(marks) <= 64 ==> ruler_id(marks) < pow2(64),
{
    let id = ruler_id(marks);
    let n = width(id);
    lemma_width_bound(id);
    lemma_pow2_pos(64);
    if marks.len() > 0 {
        lemma_id_bounds(marks);
        let last = marks.last();
        if n > last {
            lemma_pow2_strictly_increases(last as nat, (n - 1) as nat);
        }
        if last < 64 {
            lemma_pow2_strictly_increases(last as nat, 64);
        }
    }
    lemma_low_marks(id, n);
    lemma_id_of_low_marks(id, n);
    lemma_small_mod(id, pow2(n));
    lemma_id_injective(id_marks(id), marks);
}

impl GolombRuler {
    /// The ruler with the given id: the ruler without marks but 0 has the id 0, the ruler
    /// `[0, 1]` the id 1, and from there on the highest set bit of the id gives the length
    /// and the bits below it the marks between the two ends.
    pub fn from_id(id: u64) -> (ruler: GolombRuler)
        ensures
            ruler@ == id_marks(id as nat),
            ruler.wf(),
            ruler_length(ruler@) <= 64,
            ruler_id(ruler@) == id,
    {
        proof {
            lemma_encode_decode(id);
            lemma2_to64();
        }
        if id == 0 {
            GolombRuler { marks: Vec::new() }
        } else if id == 1 {
            let mut marks: Vec<GInt> = Vec::new();
            marks.push(1);
            proof {
                assert(width(1) == 1 + width(0));
                assert(bit_of(1, 0));
                assert(low_marks(1, 0) =~= Seq::<i128>::empty());
                assert(low_marks(1, 1) =~= seq![1i128]);
            }
            GolombRuler { marks }
        } else {
            // break the id into its bits, up to the highest one
            let mut state: Vec<bool> = Vec::new();
            let mut rest: u64 = id;
            assert(id as nat / pow2(0) == id) by {
                vstd::arithmetic::div_mod::lemma_div_basics(id as int);
            }
            while rest > 1
                invariant
                    rest >= 1,
                    rest == id as nat / pow2(state@.len()),
                    forall|i: int| 0 <= i < state@.len() ==> state@[i] == bit_of(id as nat, i as nat),
                decreases rest,
            {
                proof {
                    let n = state@.len();
                    lemma_pow2_pos(n);
                    lemma_pow2_unfold(n + 1);
                    lemma_div_denominator(id as int, pow2(n) as int, 2);
                    assert(pow2(n) * 2 == pow2(n + 1));
                }
                state.push(rest % 2 == 1);
                rest = rest / 2;
            }
            proof {
                lemma_width(id as nat, state@.len());
                lemma_low_marks_state(id as nat, state@);
                assert(bit_of(id as nat, state@.len()));
            }
            state.to_ruler()
        }
    }

    /// The rulers with the ids from `start_idx` up to, but without, `end_idx`.
    pub fn from_ids(start_idx: u64, end_idx: u64) -> (rulers: Vec<GolombRuler>)
        ensures
            rulers@.len() == if start_idx <= end_idx { end_idx - start_idx } else { 0 },
            forall|i: int|
                0 <= i < rulers@.len() ==> (#[trigger] rulers@[i])@ == id_marks((start_idx + i) as nat),
    {
        let mut rulers: Vec<GolombRuler> = Vec::new();
        let mut id: u64 = start_idx;
        while id < end_idx
            invariant
                start_idx <= id,
                start_idx <= end_idx ==> id <= end_idx,
                rulers@.len() == if start_idx <= end_idx { id - start_idx } else { 0 },
                forall|i: int|
                    0 <= i < rulers@.len() ==> (#[trigger] rulers@[i])@ == id_marks(
                        (start_idx + i) as nat,
                    ),
            decreases end_idx - id,
        {
            rulers.push(GolombRuler::from_id(id));
            id += 1;
        }
        rulers
    }

    /// The state of the ruler: a bit for each length between the two ends, set where the
    /// ruler has a mark.
    pub fn to_state(&self) -> (state: Vec<bool>)
        requires
            self.wf(),
            ruler_length(self@) - 1 <= usize::MAX,
        ensures
            state@ == marks_state(self@),
    {
        let l = self.length();
        if self.marks.len() == 0 || l == 1 {
            return Vec::new();
        }
        // all cleared, without the 0 and the length
        let mut state = vec![false; (l - 1) as usize];
        let count = self.marks.len();
        let mut i: usize = 0;
        while i < count - 1
            invariant
                i <= count - 1,
                count == self.marks@.len(),
                is_ruler(self.marks@),
                l == self.marks@.last(),
                l - 1 <= usize::MAX,
                state@.len() == l - 1,
                forall|b: int|
                    0 <= b < state@.len() ==> (#[trigger] state@[b] <==> self.marks@.take(
                        i as int,
                    ).contains((b + 1) as i128)),
            decreases count - i,
        {
            let m = self.marks[i];
            let ghost before = self.marks@.take(i as int);
            let ghost after = self.marks@.take(i + 1);
            state.set(m as usize - 1, true);
            proof {
                assert(after =~= before.push(m));
                assert forall|b: int| 0 <= b < state@.len() implies (#[trigger] state@[b]
                    <==> after.contains((b + 1) as i128)) by {
                    if before.contains((b + 1) as i128) {
                        let k = choose|k: int| 0 <= k < before.len() && before[k] == (b + 1) as i128;
                        assert(after[k] == (b + 1) as i128);
                    }
                    if b == m - 1 {
                        assert(after[i as int] == m);
                    }
                }
            }
            i += 1;
        }
        proof {
            let front = self.marks@.take(count - 1);
            assert forall|b: int| 0 <= b < state@.len() implies state@[b] == self.marks@.contains(
                (b + 1) as i128,
            ) by {
                if front.contains((b + 1) as i128) {
                    let k = choose|k: int| 0 <= k < front.len() && front[k] == (b + 1) as i128;
                    assert(self.marks@[k] == (b + 1) as i128);
                }
                if self.marks@.contains((b + 1) as i128) {
                    let k = choose|k: int|
                        0 <= k < self.marks@.len() && self.marks@[k] == (b + 1) as i128;
                    assert(front[k] == (b + 1) as i128);
                }
            }
            assert(state@ =~= marks_state(self.marks@));
        }
        state
    }

    /// The id of the ruler, if the ruler is no longer than 64.
    pub fn to_id(&self) -> (id: Option<u64>)
        requires
            self.wf(),
        ensures
            ruler_length(self@) <= 64 ==> id == Some(ruler_id(self@) as u64),
            ruler_length(self@) > 64 ==> id.is_none(),
            id.is_some() ==> id_marks(id.unwrap() as nat) == self@,
    {
        proof {
            lemma2_to64();
            lemma_decode_encode(self.marks@);
        }
        if self.marks.len() == 0 {
            // [0]
            Some(0)
        } else if self.length() == 1 {
            // [0, 1]
            proof {
                if self.marks@.len() > 1 {
                    assert(self.marks@[0] < self.marks@[self.marks@.len() - 1]);
                }
                assert(ruler_id(self.marks@.drop_last()) == 0);
            }
            Some(1)
        } else if self.length() > 64 {
            None
        } else {
            let top = (self.length() - 1) as u64;
            proof {
                lemma_id_bounds(self.marks@);
                lemma_pow2_strictly_increases(top as nat, 64);
                vstd::bits::lemma_u64_shl_is_mul(1, top);
            }
            let mut val: u64 = 1u64 << top;
            let state = self.to_state();
            let count = self.marks.len();
            let ghost rest = self.marks@.drop_last();
            let mut i: usize = 0;
            while i < count - 1
                invariant
                    i <= count - 1,
                    count == self.marks@.len(),
                    is_ruler(self.marks@),
                    rest == self.marks@.drop_last(),
                    state@ == marks_state(self.marks@),
                    top == self.marks@.last() - 1,
                    top < 64,
                    ruler_id(self.marks@) < pow2(64),
                    pow2(64) == 0x10000000000000000,
                    val == pow2(top as nat) + ruler_id(rest.take(i as int)),
                decreases count - i,
            {
                let m = self.marks[i];
                proof {
                    assert(rest[i as int] == m);
                    lemma_id_take(rest, i as int);
                    lemma_id_prefix(rest, i + 1);
                    assert(self.marks@.contains(m));
                    lemma_pow2_strictly_increases((m - 1) as nat, 64);
                    vstd::bits::lemma_u64_shl_is_mul(1, (m - 1) as u64);
                }
                if state[(m - 1) as usize] {
                    val += 1u64 << ((m - 1) as u64);
                }
                i += 1;
            }
            assert(rest.take(i as int) =~= rest);
            Some(val)
        }
    }

    /// Return the next ruler with order `order` and length `length`, which need not be
    /// a Golomb ruler.
    pub fn next_pruned(&self, order: usize, length: usize) -> (next: Option<GolombRuler>)
        requires
            self.wf(),
            ruler_length(self@) - 1 <= usize::MAX,
            length >= 2,
        ensures
            match pruned_next(marks_state(self@), order as int, length as nat) {
                Some(state) => next.is_some() && next.unwrap()@ == ruler_marks(state)
                    && next.unwrap().wf(),
                None => next.is_none(),
            },
    {
        match self.to_state().next_pruned(order, length) {
            Some(state) => {
                proof {
                    assert(state@.len() == state.len());
                    lemma_ruler_marks(state@);
                }
                Some(state.to_ruler())
            },
            None => None,
        }
    }
}

} // verus!
