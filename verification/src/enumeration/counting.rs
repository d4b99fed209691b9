//! How many rulers the traversals list, and that they list each ruler once.

use crate::enumeration::bits::{
    cleared, count_set, lemma_count_cleared, lemma_count_push, lemma_state_of_value,
    lemma_value_bound, lemma_value_of_state, state_of, state_value,
};
use crate::enumeration::listing::{
    depth_rulers, depth_rulers_up_to, golomb_of_order, has_order, is_golomb,
    lemma_filter_no_duplicates, lemma_filter_one_more, lemma_filter_twice, lemma_rulers_of_length,
    passing_of_order, pruned_rulers, pruned_rulers_up_to, rulers_of_length, rulers_up_to,
    rulers_with_length,
};
use crate::enumeration::steps::lemma_interior_marks;
use crate::rulers::golomb_ruler::{is_ruler, lemma_golomb_passes_depth_one, ruler_length};
use crate::rulers::index::{lemma_marks_state, lemma_ruler_marks, marks_state};
use crate::rulers::ruler::golomb;
use vstd::arithmetic::power2::{lemma2_to64, lemma_pow2_pos, lemma_pow2_unfold, pow2};
use vstd::prelude::*;

verus! {

/// The number of ways to choose `k` of `n` things, by the rule of Pascal's triangle.
pub open spec fn binomial(n: nat, k: int) -> nat
    decreases n,
{
    if n == 0 {
        if k == 0 {
            1
        } else {
            0
        }
    } else {
        binomial((n - 1) as nat, k - 1) + binomial((n - 1) as nat, k)
    }
}

/// The number of states of `n` bits below the one that spells `v` that have `k` set bits.
pub open spec fn counted_below(n: nat, k: int, v: nat) -> nat
    decreases v,
{
    if v == 0 {
        0
    } else {
        counted_below(n, k, (v - 1) as nat) + (if count_set(state_of((v - 1) as nat, n)) == k {
            1nat
        } else {
            0nat
        })
    }
}

/// The exhaustive traversal of the rulers of one length lists `2^(length - 1)` rulers, and
/// none of them twice.
pub proof fn lemma_exhaustive_distinct(length: usize)
    requires
        length >= 1,
    ensures
        rulers_of_length(length as nat).len() == pow2((length - 1) as nat),
        rulers_of_length(length as nat).no_duplicates(),
{
    let n = (length - 1) as nat;
    let all = rulers_of_length(length as nat);
    assert forall|i: int, j: int| 0 <= i < all.len() && 0 <= j < all.len() && i != j implies all[i]
        != all[j] by {
        let s = state_of(i as nat, n);
        let t = state_of(j as nat, n);
        lemma_value_of_state(i as nat, n);
        lemma_value_of_state(j as nat, n);
        lemma_ruler_marks(s);
        lemma_ruler_marks(t);
    }
}

/// The exhaustive traversal of the rulers of one length lists every ruler of that length.
pub proof fn lemma_exhaustive_complete(marks: Seq<i128>)
    requires
        is_ruler(marks),
        marks.len() >= 1,
    ensures
        rulers_of_length(ruler_length(marks) as nat).contains(marks),
{
    let s = marks_state(marks);
    lemma_marks_state(marks);
    lemma_value_bound(s);
    lemma_state_of_value(s);
    let v = state_value(s);
    assert(rulers_of_length(ruler_length(marks) as nat)[v as int] == marks);
}

/// The rulers kept of the first `v` of a length are as many as the states counted below `v`.
proof fn lemma_counted_below(n: nat, order: int, v: nat)
    requires
        n < i128::MAX,
        v <= pow2(n),
    ensures
        rulers_of_length(n + 1).subrange(0, v as int).filter(has_order(order)).len()
            == counted_below(n, order - 2, v),
    decreases v,
{
    let all = rulers_of_length(n + 1);
    if v == 0 {
        reveal(Seq::filter);
    } else {
        lemma_counted_below(n, order, (v - 1) as nat);
        lemma_filter_one_more(all, has_order(order), 0, v - 1);
        lemma_rulers_of_length(n + 1, v - 1);
    }
}

/// Pascal's rule for the states counted: a state of `n + 1` bits is a state of `n` bits
/// and one bit more, which adds to the count or does not.
proof fn lemma_counted_pascal(n: nat, k: int, q: nat)
    ensures
        counted_below(n + 1, k, 2 * q) == counted_below(n, k, q) + counted_below(n, k - 1, q),
    decreases q,
{
    if q > 0 {
        let p = (q - 1) as nat;
        lemma_counted_pascal(n, k, p);
        let s = state_of(p, n);
        assert(state_of(2 * p, n + 1) == s.push(false)) by {
            assert((2 * p) / 2 == p);
            assert((2 * p) % 2 == 0);
        }
        assert(state_of(2 * p + 1, n + 1) == s.push(true)) by {
            assert((2 * p + 1) / 2 == p);
            assert((2 * p + 1) % 2 == 1);
        }
        lemma_count_push(s, false);
        lemma_count_push(s, true);
        assert(counted_below(n + 1, k, 2 * q) == counted_below(n + 1, k, (2 * q - 1) as nat) + (
        if count_set(state_of((2 * q - 1) as nat, n + 1)) == k {
            1nat
        } else {
            0nat
        }));
        assert((2 * q - 1) as nat == 2 * p + 1);
        assert(counted_below(n + 1, k, 2 * p + 1) == counted_below(n + 1, k, 2 * p) + (
        if count_set(state_of(2 * p, n + 1)) == k {
            1nat
        } else {
            0nat
        }));
    }
}

/// Of the states of `n` bits, `binomial(n, k)` have `k` set bits.
proof fn lemma_counted_all(n: nat, k: int)
    ensures
        counted_below(n, k, pow2(n)) == binomial(n, k),
    decreases n,
{
    if n == 0 {
        lemma2_to64();
        assert(counted_below(0, k, 1) == counted_below(0, k, 0) + (if count_set(state_of(0, 0))
            == k {
            1nat
        } else {
            0nat
        }));
    } else {
        let m = (n - 1) as nat;
        lemma_pow2_unfold(n);
        lemma_counted_pascal(m, k, pow2(m));
        lemma_counted_all(m, k);
        lemma_counted_all(m, k - 1);
    }
}

/// A state without a set bit spells 0.
proof fn lemma_count_zero(s: Seq<bool>)
    requires
        count_set(s) == 0,
    ensures
        state_value(s) == 0,
    decreases s.len(),
{
    if s.len() > 0 {
        lemma_count_zero(s.drop_last());
    }
}

/// The pruned traversal lists the rulers of the exhaustive one that have `order` marks,
/// each once, and they are `binomial(length - 1, order - 2)`.
pub proof fn lemma_pruned_is_exhaustive_of_order(order: usize, length: usize)
    requires
        length >= 1,
    ensures
        pruned_rulers(order as int, length as nat) == rulers_with_length(length as nat).filter(
            has_order(order as int),
        ),
        pruned_rulers(order as int, length as nat).len() == binomial(
            (length - 1) as nat,
            order - 2,
        ),
        pruned_rulers(order as int, length as nat).no_duplicates(),
{
    let n = (length - 1) as nat;
    let all = rulers_of_length(length as nat);
    let keep = has_order(order as int);
    let first = seq![all[0]];
    let rest = all.drop_first();
    lemma_pow2_pos(n);
    lemma_count_cleared(n);
    lemma_state_of_value(cleared(n));
    lemma_interior_marks(cleared(n));
    assert(all[0] =~= seq![length as i128]);
    assert(all =~= first + rest);
    Seq::filter_distributes_over_add(first, rest, keep);
    assert(first.filter(keep) == if keep(all[0]) { first } else { Seq::empty() }) by {
        reveal(Seq::filter);
        assert(first.drop_last() =~= Seq::<Seq<i128>>::empty());
        assert(Seq::<Seq<i128>>::empty().push(all[0]) =~= first);
    }
    if order == 2 {
        assert forall|x: int| 0 <= x < rest.len() implies !keep(#[trigger] rest[x]) by {
            let s = state_of((x + 1) as nat, n);
            lemma_value_of_state((x + 1) as nat, n);
            lemma_interior_marks(s);
            if count_set(s) == 0 {
                lemma_count_zero(s);
            }
        }
        rest.lemma_all_neg_filter_empty(keep);
        assert(first + Seq::<Seq<i128>>::empty() =~= first);
    } else {
        assert(Seq::<Seq<i128>>::empty() + rest.filter(keep) =~= rest.filter(keep));
    }
    lemma_counted_below(n, order as int, pow2(n));
    assert(all.subrange(0, pow2(n) as int) =~= all);
    lemma_counted_all(n, order - 2);
    lemma_exhaustive_distinct(length);
    lemma_filter_no_duplicates(all, keep);
}

/// The rulers with `order` marks of a length that are Golomb rulers are the Golomb rulers
/// with `order` marks of the exhaustive traversal: to prune changes the cost and not the
/// answer.
pub proof fn lemma_pruned_golomb_is_exhaustive(order: usize, length: usize)
    requires
        length >= 1,
    ensures
        pruned_rulers(order as int, length as nat).filter(is_golomb()) == rulers_of_length(
            length as nat,
        ).filter(golomb_of_order(order as int)),
        pruned_rulers(order as int, length as nat).filter(is_golomb()).no_duplicates(),
{
    let all = rulers_of_length(length as nat);
    lemma_pruned_is_exhaustive_of_order(order, length);
    lemma_filter_twice(all, has_order(order as int), is_golomb(), golomb_of_order(order as int));
    lemma_filter_no_duplicates(pruned_rulers(order as int, length as nat), is_golomb());
}

/// The exhaustive traversal of the lengths from 2 up to `max_length` lists rulers of
/// those lengths, and none of them twice.
pub proof fn lemma_exhaustive_distinct_up_to(max_length: usize)
    ensures
        rulers_up_to(max_length as nat).no_duplicates(),
        forall|i: int|
            0 <= i < rulers_up_to(max_length as nat).len() ==> 2 <= ruler_length(
                #[trigger] rulers_up_to(max_length as nat)[i],
            ) <= max_length,
    decreases max_length,
{
    if max_length >= 2 {
        let before = rulers_up_to((max_length - 1) as nat);
        let last = rulers_of_length(max_length as nat);
        lemma_exhaustive_distinct_up_to((max_length - 1) as usize);
        lemma_exhaustive_distinct(max_length);
        assert forall|j: int| 0 <= j < last.len() implies ruler_length(#[trigger] last[j])
            == max_length by {
            lemma_rulers_of_length(max_length as nat, j);
        }
        vstd::seq_lib::lemma_no_dup_in_concat(before, last);
    }
}

/// The same of the lengths from 2 up to `max_length`, where the list has no ruler twice.
pub proof fn lemma_pruned_golomb_is_exhaustive_up_to(order: usize, max_length: usize)
    ensures
        pruned_rulers_up_to(order as int, max_length as nat).filter(is_golomb()) == rulers_up_to(
            max_length as nat,
        ).filter(golomb_of_order(order as int)),
        pruned_rulers_up_to(order as int, max_length as nat).filter(is_golomb()).no_duplicates(),
    decreases max_length,
{
    lemma_exhaustive_distinct_up_to(max_length);
    lemma_filter_no_duplicates(rulers_up_to(max_length as nat), golomb_of_order(order as int));
    if max_length >= 2 {
        lemma_pruned_golomb_is_exhaustive_up_to(order, (max_length - 1) as usize);
        lemma_pruned_golomb_is_exhaustive(order, max_length);
        Seq::filter_distributes_over_add(
            pruned_rulers_up_to(order as int, (max_length - 1) as nat),
            pruned_rulers(order as int, max_length as nat),
            is_golomb(),
        );
        Seq::filter_distributes_over_add(
            rulers_up_to((max_length - 1) as nat),
            rulers_of_length(max_length as nat),
            golomb_of_order(order as int),
        );
    }
}

/// A Golomb ruler among the rulers with `order` marks of a length is among those that pass
/// the check one deep as well.
pub proof fn lemma_depth_keeps_golomb(order: usize, length: usize, marks: Seq<i128>)
    requires
        length >= 2,
        pruned_rulers(order as int, length as nat).contains(marks),
        golomb(marks),
    ensures
        depth_rulers(order as int, length as nat).contains(marks),
{
    if order != 2 {
        let rest = rulers_of_length(length as nat).drop_first();
        let kept = rest.filter(has_order(order as int));
        let i = choose|i: int| 0 <= i < kept.len() && kept[i] == marks;
        rest.lemma_filter_pred(has_order(order as int), i);
        rest.lemma_filter_contains_rev(has_order(order as int), marks);
        let j = choose|j: int| 0 <= j < rest.len() && rest[j] == marks;
        lemma_pow2_pos((length - 1) as nat);
        assert(rest[j] == rulers_of_length(length as nat)[j + 1]);
        lemma_rulers_of_length(length as nat, j + 1);
        lemma_golomb_passes_depth_one(marks);
        rest.lemma_filter_contains(passing_of_order(order as int), j);
    }
}

/// The same of the lengths from 2 up to `max_length`.
pub proof fn lemma_depth_keeps_golomb_up_to(order: usize, max_length: usize, marks: Seq<i128>)
    requires
        pruned_rulers_up_to(order as int, max_length as nat).contains(marks),
        golomb(marks),
    ensures
        depth_rulers_up_to(order as int, max_length as nat).contains(marks),
    decreases max_length,
{
    if max_length >= 2 {
        let before = pruned_rulers_up_to(order as int, (max_length - 1) as nat);
        let last = pruned_rulers(order as int, max_length as nat);
        let all = before + last;
        let i = choose|i: int| 0 <= i < all.len() && all[i] == marks;
        let deep_before = depth_rulers_up_to(order as int, (max_length - 1) as nat);
        let deep_last = depth_rulers(order as int, max_length as nat);
        if i < before.len() {
            assert(before[i] == marks);
            lemma_depth_keeps_golomb_up_to(order, (max_length - 1) as usize, marks);
            let j = choose|j: int| 0 <= j < deep_before.len() && deep_before[j] == marks;
            assert((deep_before + deep_last)[j] == marks);
        } else {
            assert(last[i - before.len()] == marks);
            lemma_depth_keeps_golomb(order, max_length, marks);
            let j = choose|j: int| 0 <= j < deep_last.len() && deep_last[j] == marks;
            assert((deep_before + deep_last)[deep_before.len() + j] == marks);
        }
    }
}

} // verus!
