//! Why the steps of the traversals are right: what stands between a state and the one
//! that a step gives.

use crate::enumeration::bits::{
    all_set, carry_at, count_set, last_clear, last_set, lemma_carry_value, lemma_count_all_set,
    lemma_count_bound, lemma_count_cleared_tail, lemma_count_prefix, lemma_count_take,
    lemma_difference_orders, lemma_first_difference, lemma_last_clear, lemma_last_set,
    lemma_value_all_set, lemma_value_bound, lemma_value_of_state, parts_at, state_of,
    state_value,
};
use crate::enumeration::state::{
    first_from, interior_marks, jumped_back, proposal, with_count,
};
use vstd::arithmetic::power2::pow2;
use vstd::prelude::*;

verus! {

/// The interior marks of a state: one for each set bit, within the ruler, ascending, and
/// the mark `i + 1` among them exactly when bit `i` is set.
pub proof fn lemma_interior_marks(s: Seq<bool>)
    requires
        s.len() < i128::MAX,
    ensures
        interior_marks(s).len() == count_set(s),
        forall|k: int|
            0 <= k < interior_marks(s).len() ==> 1 <= #[trigger] interior_marks(s)[k] <= s.len()
                && s[interior_marks(s)[k] - 1],
        forall|k: int, l: int|
            0 <= k < l < interior_marks(s).len() ==> interior_marks(s)[k] < interior_marks(s)[l],
        forall|i: int|
            0 <= i < s.len() ==> (#[trigger] s[i] <==> interior_marks(s).contains((i + 1) as i128)),
    decreases s.len(),
{
    if s.len() > 0 {
        let t = s.drop_last();
        let n = s.len();
        let inner = interior_marks(t);
        let marks = interior_marks(s);
        lemma_interior_marks(t);
        assert forall|k: int| 0 <= k < marks.len() implies 1 <= #[trigger] marks[k] <= s.len()
            && s[marks[k] - 1] by {
            if k < inner.len() {
                assert(marks[k] == inner[k]);
                assert(t[inner[k] - 1] == s[inner[k] - 1]);
            }
        }
        assert forall|k: int, l: int| 0 <= k < l < marks.len() implies marks[k] < marks[l] by {
            assert(marks[k] == inner[k]);
            if l < inner.len() {
                assert(marks[l] == inner[l]);
            }
        }
        assert forall|i: int| 0 <= i < s.len() implies (#[trigger] s[i] <==> marks.contains(
            (i + 1) as i128,
        )) by {
            if i < n - 1 {
                assert(t[i] == s[i]);
                if t[i] {
                    let k = choose|k: int| 0 <= k < inner.len() && inner[k] == (i + 1) as i128;
                    assert(marks[k] == (i + 1) as i128);
                }
                if marks.contains((i + 1) as i128) {
                    let k = choose|k: int| 0 <= k < marks.len() && marks[k] == (i + 1) as i128;
                    assert(k < inner.len());
                    assert(inner[k] == (i + 1) as i128);
                }
            } else {
                if s[i] {
                    assert(marks[marks.len() - 1] == n as i128);
                }
                if marks.contains((i + 1) as i128) {
                    let k = choose|k: int| 0 <= k < marks.len() && marks[k] == (i + 1) as i128;
                    if !s.last() {
                        assert(inner[k] <= n - 1);
                    }
                }
            }
        }
    }
}

/// Setting a cleared last bit is counting up by one.
pub proof fn lemma_flip_last(s: Seq<bool>)
    requires
        s.len() > 0,
        !s.last(),
    ensures
        s.update(s.len() - 1, true) == carry_at(s, last_clear(s)),
        state_value(s.update(s.len() - 1, true)) == state_value(s) + 1,
{
    lemma_last_clear(s);
    assert(s.update(s.len() - 1, true) =~= carry_at(s, last_clear(s)));
    lemma_carry_value(s);
}

/// The search passes over states that are not wanted.
pub proof fn lemma_first_from_skip(v: nat, w: nat, n: nat, wanted: spec_fn(Seq<bool>) -> bool)
    requires
        v <= w,
        forall|x: nat| v <= x < w ==> !wanted(#[trigger] state_of(x, n)),
    ensures
        first_from(v, n, wanted) == first_from(w, n, wanted),
    decreases w - v,
{
    if v < w {
        if v < pow2(n) {
            assert(!wanted(state_of(v, n)));
            lemma_first_from_skip(v + 1, w, n, wanted);
        }
    }
}

/// What the search finds is wanted and the first such state; where it finds nothing, no
/// state from `v` on is wanted.
pub proof fn lemma_first_from(v: nat, n: nat, wanted: spec_fn(Seq<bool>) -> bool)
    ensures
        match first_from(v, n, wanted) {
            Some(t) => {
                &&& t.len() == n
                &&& v <= state_value(t) < pow2(n)
                &&& wanted(t)
                &&& forall|x: nat| v <= x < state_value(t) ==> !wanted(#[trigger] state_of(x, n))
            },
            None => forall|x: nat| v <= x < pow2(n) ==> !wanted(#[trigger] state_of(x, n)),
        },
    decreases pow2(n) - v,
{
    if v < pow2(n) {
        if wanted(state_of(v, n)) {
            lemma_value_of_state(v, n);
        } else {
            lemma_first_from(v + 1, n, wanted);
        }
    }
}

/// A state that spells more than `s` has, where the two first differ, a set bit more than
/// the part of `s` before it.
pub proof fn lemma_greater_counts(s: Seq<bool>, u: Seq<bool>, e: int)
    requires
        parts_at(s, u, e),
    ensures
        count_set(u) >= count_set(s.take(e)) + 1,
{
    lemma_count_take(u, e);
    lemma_count_prefix(u, e + 1);
}

/// A jump back passes over states with more set bits only.
pub proof fn lemma_jump_skips(s: Seq<bool>, u: Seq<bool>)
    requires
        last_set(s) >= 0,
        last_clear(s.take(last_set(s))) >= 0,
        u.len() == s.len(),
        state_value(s) < state_value(u) < state_value(jumped_back(s)),
    ensures
        count_set(u) > count_set(s),
{
    let j = last_set(s);
    let p = last_clear(s.take(j));
    let r = carry_at(s, p);
    lemma_last_set(s);
    lemma_last_clear(s.take(j));
    assert(!s[p]) by {
        assert(s.take(j)[p] == s[p]);
    }
    assert forall|i: int| p < i <= j implies s[i] by {
        if i < j {
            assert(s.take(j)[i] == s[i]);
        }
    }
    let d = lemma_first_difference(u, r);
    if d < p {
        assert(r.take(d) =~= s.take(d));
        lemma_difference_orders(u, s, d);
    }
    assert(d == p);
    let e = lemma_first_difference(s, u);
    assert(r.take(p) =~= s.take(p));
    if e < p {
        assert(s.take(p)[e] == u.take(p)[e]);
    }
    assert(e > j);
    lemma_greater_counts(s, u, e);
    lemma_count_cleared_tail(s, e);
}

/// What the pruned traversal proposes spells more than the state before it, and no state
/// between the two has the wanted number of set bits; where it proposes nothing, no state
/// after this one has.
pub proof fn lemma_proposal(s: Seq<bool>, order: int)
    requires
        s.len() >= 1,
    ensures
        match proposal(s, order) {
            Some(t) => {
                &&& t.len() == s.len()
                &&& state_value(t) > state_value(s)
                &&& first_from(state_value(s) + 1, s.len(), with_count(order - 2)) == first_from(
                    state_value(t),
                    s.len(),
                    with_count(order - 2),
                )
            },
            None => first_from(state_value(s) + 1, s.len(), with_count(order - 2)).is_none(),
        },
{
    let n = s.len();
    let k = order - 2;
    let v = state_value(s);
    lemma_value_bound(s);
    lemma_count_bound(s);
    if !s.last() {
        if count_set(s) + 2 == order {
            if all_set(s.take(k)) {
                assert forall|x: nat| v + 1 <= x < pow2(n) implies !with_count(k)(
                    #[trigger] state_of(x, n),
                ) by {
                    let u = state_of(x, n);
                    lemma_value_of_state(x, n);
                    let e = lemma_first_difference(s, u);
                    if e < k {
                        assert(s.take(k)[e] == s[e]);
                    }
                    lemma_greater_counts(s, u, e);
                    lemma_count_all_set(s.take(k));
                    assert(s.take(e).take(k) =~= s.take(k));
                    lemma_count_prefix(s.take(e), k);
                }
                lemma_first_from_skip(v + 1, pow2(n), n, with_count(k));
            } else {
                let j = last_set(s);
                lemma_last_set(s);
                if j < 0 {
                    lemma_count_cleared_tail(s, 0);
                    assert(count_set(s.take(0)) == 0);
                    assert(false);
                }
                let p = last_clear(s.take(j));
                lemma_last_clear(s.take(j));
                if p < 0 {
                    let front = s.take(j + 1);
                    assert forall|i: int| 0 <= i < front.len() implies front[i] by {
                        if i < j {
                            assert(s.take(j)[i] == s[i]);
                        }
                    }
                    lemma_count_all_set(front);
                    lemma_count_cleared_tail(s, j + 1);
                    assert(false);
                }
                let r = carry_at(s, p);
                assert(!s[p]) by {
                    assert(s.take(j)[p] == s[p]);
                }
                assert(r.take(p) =~= s.take(p));
                lemma_difference_orders(s, r, p);
                lemma_value_bound(r);
                assert forall|x: nat| v + 1 <= x < state_value(r) implies !with_count(k)(
                    #[trigger] state_of(x, n),
                ) by {
                    lemma_value_of_state(x, n);
                    lemma_jump_skips(s, state_of(x, n));
                }
                lemma_first_from_skip(v + 1, state_value(r), n, with_count(k));
            }
        } else {
            lemma_flip_last(s);
        }
    } else if all_set(s) {
        lemma_value_all_set(s);
    } else {
        lemma_carry_value(s);
    }
}

} // verus!
