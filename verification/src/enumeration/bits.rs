//! The mathematics of states: a state is a sequence of bits, bit `i` telling
//! whether the mark `i + 1` is on the ruler. States of one length are ordered
//! as binary numerals, the last bit being the least significant.

use vstd::arithmetic::power2::{lemma2_to64, lemma_pow2_pos, lemma_pow2_unfold, pow2};
use vstd::prelude::*;

verus! {

/// The number of set bits of a state.
pub open spec fn count_set(s: Seq<bool>) -> nat
    decreases s.len(),
{
    if s.len() == 0 {
        0
    } else {
        count_set(s.drop_last()) + (if s.last() {
            1nat
        } else {
            0nat
        })
    }
}

/// Every bit of the state is set.
pub open spec fn all_set(s: Seq<bool>) -> bool {
    forall|i: int| 0 <= i < s.len() ==> s[i]
}

/// The state of `n` bits that has none set.
pub open spec fn cleared(n: nat) -> Seq<bool> {
    Seq::new(n, |i: int| false)
}

/// The number that a state spells as a binary numeral.
pub open spec fn state_value(s: Seq<bool>) -> nat
    decreases s.len(),
{
    if s.len() == 0 {
        0
    } else {
        2 * state_value(s.drop_last()) + (if s.last() {
            1nat
        } else {
            0nat
        })
    }
}

/// The state of `n` bits that spells `v`, or the low `n` bits of `v` where it does not fit.
pub open spec fn state_of(v: nat, n: nat) -> Seq<bool>
    decreases n,
{
    if n == 0 {
        Seq::empty()
    } else {
        state_of(v / 2, (n - 1) as nat).push(v % 2 == 1)
    }
}

/// The index of the last cleared bit, or -1 where every bit is set.
pub open spec fn last_clear(s: Seq<bool>) -> int
    decreases s.len(),
{
    if s.len() == 0 {
        -1
    } else if !s.last() {
        s.len() - 1
    } else {
        last_clear(s.drop_last())
    }
}

/// The index of the last set bit, or -1 where every bit is cleared.
pub open spec fn last_set(s: Seq<bool>) -> int
    decreases s.len(),
{
    if s.len() == 0 {
        -1
    } else if s.last() {
        s.len() - 1
    } else {
        last_set(s.drop_last())
    }
}

/// The state with bit `p` set and every bit after it cleared; the bits before `p` stay.
pub open spec fn carry_at(s: Seq<bool>, p: int) -> Seq<bool> {
    Seq::new(s.len(), |i: int| if i < p { s[i] } else { i == p })
}

/// `a` and `b` agree on their first `d` bits, and at bit `d` the first is cleared and the second set.
pub open spec fn parts_at(a: Seq<bool>, b: Seq<bool>, d: int) -> bool {
    &&& 0 <= d < a.len()
    &&& a.len() == b.len()
    &&& a.take(d) == b.take(d)
    &&& !a[d]
    &&& b[d]
}

/// A state has no more set bits than bits.
pub proof fn lemma_count_bound(s: Seq<bool>)
    ensures
        count_set(s) <= s.len(),
    decreases s.len(),
{
    if s.len() > 0 {
        lemma_count_bound(s.drop_last());
    }
}

/// One more bit at the end is counted if it is set.
pub proof fn lemma_count_push(s: Seq<bool>, b: bool)
    ensures
        count_set(s.push(b)) == count_set(s) + (if b { 1nat } else { 0nat }),
{
    assert(s.push(b).drop_last() =~= s);
}

/// One more bit of a prefix adds that bit to the count.
pub proof fn lemma_count_take(s: Seq<bool>, i: int)
    requires
        0 <= i < s.len(),
    ensures
        count_set(s.take(i + 1)) == count_set(s.take(i)) + (if s[i] { 1nat } else { 0nat }),
{
    assert(s.take(i + 1).drop_last() =~= s.take(i));
}

/// A prefix has no more set bits than the whole.
pub proof fn lemma_count_prefix(s: Seq<bool>, i: int)
    requires
        0 <= i <= s.len(),
    ensures
        count_set(s.take(i)) <= count_set(s),
    decreases s.len() - i,
{
    if i == s.len() {
        assert(s.take(i) =~= s);
    } else {
        lemma_count_take(s, i);
        lemma_count_prefix(s, i + 1);
    }
}

/// Where nothing is set from bit `i` on, the prefix of `i` bits has the whole count.
pub proof fn lemma_count_cleared_tail(s: Seq<bool>, i: int)
    requires
        0 <= i <= s.len(),
        forall|j: int| i <= j < s.len() ==> !s[j],
    ensures
        count_set(s.take(i)) == count_set(s),
    decreases s.len() - i,
{
    if i == s.len() {
        assert(s.take(i) =~= s);
    } else {
        lemma_count_take(s, i);
        lemma_count_cleared_tail(s, i + 1);
    }
}

/// A state has as many set bits as bits exactly when all of them are set.
pub proof fn lemma_count_all_set(s: Seq<bool>)
    ensures
        all_set(s) <==> count_set(s) == s.len(),
    decreases s.len(),
{
    if s.len() > 0 {
        let t = s.drop_last();
        lemma_count_all_set(t);
        lemma_count_bound(t);
        if all_set(s) {
            assert forall|i: int| 0 <= i < t.len() implies t[i] by {
                assert(t[i] == s[i]);
            }
        }
        if count_set(s) == s.len() {
            assert forall|i: int| 0 <= i < s.len() implies s[i] by {
                if i < t.len() {
                    assert(t[i] == s[i]);
                }
            }
        }
    }
}

/// The cleared state has no set bit and spells 0.
pub proof fn lemma_count_cleared(n: nat)
    ensures
        count_set(cleared(n)) == 0,
        state_value(cleared(n)) == 0,
    decreases n,
{
    if n > 0 {
        lemma_count_cleared((n - 1) as nat);
        assert(cleared(n).drop_last() =~= cleared((n - 1) as nat));
    }
}

/// A state of `n` bits spells a number below `2^n`.
pub proof fn lemma_value_bound(s: Seq<bool>)
    ensures
        state_value(s) < pow2(s.len()),
    decreases s.len(),
{
    if s.len() == 0 {
        lemma_pow2_pos(0);
    } else {
        lemma_value_bound(s.drop_last());
        lemma_pow2_unfold(s.len());
    }
}

/// One more bit at the end doubles the value and adds that bit.
pub proof fn lemma_value_push(s: Seq<bool>, b: bool)
    ensures
        state_value(s.push(b)) == 2 * state_value(s) + (if b { 1nat } else { 0nat }),
{
    assert(s.push(b).drop_last() =~= s);
}

/// One more bit of a prefix doubles its value and adds that bit.
pub proof fn lemma_value_take(s: Seq<bool>, i: int)
    requires
        0 <= i < s.len(),
    ensures
        state_value(s.take(i + 1)) == 2 * state_value(s.take(i)) + (if s[i] { 1nat } else { 0nat }),
{
    assert(s.take(i + 1).drop_last() =~= s.take(i));
}

/// The state of `n` bits has `n` bits.
pub proof fn lemma_state_of_len(v: nat, n: nat)
    ensures
        state_of(v, n).len() == n,
    decreases n,
{
    if n > 0 {
        lemma_state_of_len(v / 2, (n - 1) as nat);
    }
}

/// A number below `2^n` is the value of its state of `n` bits.
pub proof fn lemma_value_of_state(v: nat, n: nat)
    requires
        v < pow2(n),
    ensures
        state_of(v, n).len() == n,
        state_value(state_of(v, n)) == v,
    decreases n,
{
    lemma_state_of_len(v, n);
    if n == 0 {
        lemma2_to64();
    } else {
        lemma_pow2_unfold(n);
        lemma_value_of_state(v / 2, (n - 1) as nat);
        lemma_value_push(state_of(v / 2, (n - 1) as nat), v % 2 == 1);
    }
}

/// A state is the state of its value.
pub proof fn lemma_state_of_value(s: Seq<bool>)
    ensures
        state_of(state_value(s), s.len()) == s,
    decreases s.len(),
{
    if s.len() == 0 {
        assert(state_of(state_value(s), 0) =~= s);
    } else {
        let t = s.drop_last();
        lemma_state_of_value(t);
        let v = state_value(s);
        assert(v / 2 == state_value(t));
        assert((v % 2 == 1) == s.last());
        assert(state_of(v, s.len()) =~= s);
    }
}

/// Two states of one length that spell the same number are the same state.
pub proof fn lemma_value_injective(a: Seq<bool>, b: Seq<bool>)
    requires
        a.len() == b.len(),
        state_value(a) == state_value(b),
    ensures
        a == b,
{
    lemma_state_of_value(a);
    lemma_state_of_value(b);
}

/// The state of all set bits is the last one: it spells `2^n - 1`.
pub proof fn lemma_value_all_set(s: Seq<bool>)
    ensures
        all_set(s) <==> state_value(s) + 1 == pow2(s.len()),
    decreases s.len(),
{
    if s.len() == 0 {
        lemma2_to64();
    } else {
        let t = s.drop_last();
        lemma_value_all_set(t);
        lemma_value_bound(t);
        lemma_pow2_unfold(s.len());
        if all_set(s) {
            assert forall|i: int| 0 <= i < t.len() implies t[i] by {
                assert(t[i] == s[i]);
            }
        }
        if state_value(s) + 1 == pow2(s.len()) {
            assert forall|i: int| 0 <= i < s.len() implies s[i] by {
                if i < t.len() {
                    assert(t[i] == s[i]);
                }
            }
        }
    }
}

/// What `last_clear` finds: a cleared bit with only set bits after it, or no cleared bit at all.
pub proof fn lemma_last_clear(s: Seq<bool>)
    ensures
        -1 <= last_clear(s) < s.len(),
        last_clear(s) >= 0 ==> !s[last_clear(s)],
        forall|i: int| last_clear(s) < i < s.len() ==> s[i],
        last_clear(s) < 0 <==> all_set(s),
    decreases s.len(),
{
    if s.len() > 0 && s.last() {
        let t = s.drop_last();
        lemma_last_clear(t);
        assert forall|i: int| last_clear(s) < i < s.len() implies s[i] by {
            if i < t.len() {
                assert(t[i] == s[i]);
            }
        }
        if all_set(s) {
            assert forall|i: int| 0 <= i < t.len() implies t[i] by {
                assert(t[i] == s[i]);
            }
        }
    }
}

/// What `last_set` finds: a set bit with only cleared bits after it, or no set bit at all.
pub proof fn lemma_last_set(s: Seq<bool>)
    ensures
        -1 <= last_set(s) < s.len(),
        last_set(s) >= 0 ==> s[last_set(s)],
        forall|i: int| last_set(s) < i < s.len() ==> !s[i],
    decreases s.len(),
{
    if s.len() > 0 && !s.last() {
        let t = s.drop_last();
        lemma_last_set(t);
        assert forall|i: int| last_set(s) < i < s.len() implies !s[i] by {
            if i < t.len() {
                assert(t[i] == s[i]);
            }
        }
    }
}

/// Setting the last cleared bit and clearing what follows it is counting up by one.
pub proof fn lemma_carry_value(s: Seq<bool>)
    requires
        !all_set(s),
    ensures
        state_value(carry_at(s, last_clear(s))) == state_value(s) + 1,
    decreases s.len(),
{
    lemma_last_clear(s);
    let p = last_clear(s);
    let r = carry_at(s, p);
    let t = s.drop_last();
    if !s.last() {
        assert(r.drop_last() =~= t);
    } else {
        lemma_last_clear(t);
        assert(!all_set(t));
        lemma_carry_value(t);
        assert(r.drop_last() =~= carry_at(t, p));
    }
}

/// Of two states of one length the one that spells less has, where they first differ,
/// the cleared bit.
pub proof fn lemma_first_difference(a: Seq<bool>, b: Seq<bool>) -> (d: int)
    requires
        a.len() == b.len(),
        state_value(a) < state_value(b),
    ensures
        parts_at(a, b, d),
    decreases a.len(),
{
    let n = a.len() as int;
    let s = a.drop_last();
    let t = b.drop_last();
    if state_value(s) < state_value(t) {
        let d = lemma_first_difference(s, t);
        assert(a.take(d) =~= s.take(d));
        assert(b.take(d) =~= t.take(d));
        d
    } else {
        lemma_value_injective(s, t);
        assert(a.take(n - 1) =~= s);
        assert(b.take(n - 1) =~= t);
        n - 1
    }
}

/// The converse: the state with the cleared bit at the first difference spells less.
pub proof fn lemma_difference_orders(a: Seq<bool>, b: Seq<bool>, d: int)
    requires
        parts_at(a, b, d),
    ensures
        state_value(a) < state_value(b),
    decreases a.len(),
{
    let n = a.len() as int;
    let s = a.drop_last();
    let t = b.drop_last();
    if d == n - 1 {
        assert(a.take(d) =~= s);
        assert(b.take(d) =~= t);
    } else {
        assert(s.take(d) =~= a.take(d));
        assert(t.take(d) =~= b.take(d));
        lemma_difference_orders(s, t, d);
    }
}

} // verus!
