//! What the traversals list: the rulers of one length in counting order, and what is kept
//! of them.

use crate::enumeration::bits::{
    count_set, lemma_count_bound, lemma_state_of_len, lemma_state_of_value, state_of, state_value,
};
use crate::enumeration::state::{
    depth_one, first_from, interior_marks, ruler_marks, state_contains, with_count,
    with_count_and_depth,
};
use crate::enumeration::steps::{lemma_first_from, lemma_interior_marks};
use crate::rulers::gap;
use crate::rulers::golomb_ruler::{is_ruler, passes_depth_one, ruler_length};
use crate::rulers::index::lemma_ruler_marks;
use crate::rulers::ruler::golomb;
use crate::rulers::GolombRuler;
use vstd::arithmetic::power2::pow2;
use vstd::prelude::*;

verus! {

/// The marks of each ruler of a list.
pub open spec fn views(rulers: Seq<GolombRuler>) -> Seq<Seq<i128>> {
    rulers.map_values(|r: GolombRuler| r@)
}

/// All rulers of length `length`, one or more: the rulers of the states of `length - 1`
/// bits in counting order.
pub open spec fn rulers_of_length(length: nat) -> Seq<Seq<i128>> {
    Seq::new(
        pow2((length - 1) as nat),
        |v: int| ruler_marks(state_of(v as nat, (length - 1) as nat)),
    )
}

/// All rulers of length `length`; the one of length 0 has no mark but 0.
pub open spec fn rulers_with_length(length: nat) -> Seq<Seq<i128>> {
    if length == 0 {
        seq![Seq::<i128>::empty()]
    } else {
        rulers_of_length(length)
    }
}

/// All rulers of the lengths from 2 to `max_length`, length by length.
pub open spec fn rulers_up_to(max_length: nat) -> Seq<Seq<i128>>
    decreases max_length,
{
    if max_length < 2 {
        Seq::empty()
    } else {
        rulers_up_to((max_length - 1) as nat) + rulers_of_length(max_length)
    }
}

/// The rulers with `order` marks, the mark 0 counted.
pub open spec fn has_order(order: int) -> spec_fn(Seq<i128>) -> bool {
    |marks: Seq<i128>| marks.len() + 1 == order
}

/// The rulers with the Golomb property.
pub open spec fn is_golomb() -> spec_fn(Seq<i128>) -> bool {
    |marks: Seq<i128>| golomb(marks)
}

/// The rulers with `order` marks and the Golomb property.
pub open spec fn golomb_of_order(order: int) -> spec_fn(Seq<i128>) -> bool {
    |marks: Seq<i128>| marks.len() + 1 == order && golomb(marks)
}

/// The rulers with `order` marks that pass the check one deep.
pub open spec fn passing_of_order(order: int) -> spec_fn(Seq<i128>) -> bool {
    |marks: Seq<i128>| marks.len() + 1 == order && passes_depth_one(marks)
}

/// What a pruned walk, as the iterator makes it, lists for one length: the rulers with
/// `order` marks in counting order, from the second ruler of that length on. The first
/// ruler, `[0, length]`, is where the walk starts, and it alone has two marks.
pub open spec fn pruned_walk(order: int, length: nat) -> Seq<Seq<i128>> {
    rulers_of_length(length).drop_first().filter(has_order(order))
}

/// What a walk with the check one deep, as the iterator makes it, lists for one length.
pub open spec fn depth_walk(order: int, length: nat) -> Seq<Seq<i128>> {
    rulers_of_length(length).drop_first().filter(passing_of_order(order))
}

/// The rulers with `order` marks and length `length` in counting order: with two marks
/// the one ruler `[0, length]`, else what the pruned walk lists.
pub open spec fn pruned_rulers(order: int, length: nat) -> Seq<Seq<i128>> {
    if order == 2 {
        seq![seq![length as i128]]
    } else {
        pruned_walk(order, length)
    }
}

/// The rulers with `order` marks and length `length` that pass the check one deep, in
/// counting order: with two marks the one ruler `[0, length]`, which has no mark to fail
/// with, else what the walk with that check lists.
pub open spec fn depth_rulers(order: int, length: nat) -> Seq<Seq<i128>> {
    if order == 2 {
        seq![seq![length as i128]]
    } else {
        depth_walk(order, length)
    }
}

/// The rulers with `order` marks of the lengths from 2 to `max_length`, length by length.
pub open spec fn pruned_rulers_up_to(order: int, max_length: nat) -> Seq<Seq<i128>>
    decreases max_length,
{
    if max_length < 2 {
        Seq::empty()
    } else {
        pruned_rulers_up_to(order, (max_length - 1) as nat) + pruned_rulers(order, max_length)
    }
}

/// The rulers with `order` marks of the lengths from 2 to `max_length` that pass the check
/// one deep, length by length.
pub open spec fn depth_rulers_up_to(order: int, max_length: nat) -> Seq<Seq<i128>>
    decreases max_length,
{
    if max_length < 2 {
        Seq::empty()
    } else {
        depth_rulers_up_to(order, (max_length - 1) as nat) + depth_rulers(order, max_length)
    }
}

/// One more ruler of a list is one more view.
pub proof fn lemma_views_push(rulers: Seq<GolombRuler>, ruler: GolombRuler)
    ensures
        views(rulers.push(ruler)) == views(rulers).push(ruler@),
{
    assert(views(rulers.push(ruler)) =~= views(rulers).push(ruler@));
}

/// What is kept of one more element.
pub proof fn lemma_filter_one_more<A>(s: Seq<A>, keep: spec_fn(A) -> bool, a: int, c: int)
    requires
        0 <= a <= c < s.len(),
    ensures
        s.subrange(a, c + 1).filter(keep) == if keep(s[c]) {
            s.subrange(a, c).filter(keep).push(s[c])
        } else {
            s.subrange(a, c).filter(keep)
        },
{
    assert(s.subrange(a, c + 1) =~= s.subrange(a, c).push(s[c]));
    s.subrange(a, c).lemma_filter_push(s[c], keep);
}

/// Nothing is kept of elements that are not wanted.
pub proof fn lemma_filter_skip<A>(s: Seq<A>, keep: spec_fn(A) -> bool, a: int, b: int, c: int)
    requires
        0 <= a <= b <= c <= s.len(),
        forall|x: int| b <= x < c ==> !keep(#[trigger] s[x]),
    ensures
        s.subrange(a, c).filter(keep) == s.subrange(a, b).filter(keep),
    decreases c - b,
{
    if b < c {
        lemma_filter_skip(s, keep, a, b, c - 1);
        lemma_filter_one_more(s, keep, a, c - 1);
    }
}

/// To keep of what was kept is to keep what both ask for.
pub proof fn lemma_filter_twice<A>(
    s: Seq<A>,
    first: spec_fn(A) -> bool,
    second: spec_fn(A) -> bool,
    both: spec_fn(A) -> bool,
)
    requires
        forall|x: A| #[trigger] both(x) <==> first(x) && second(x),
    ensures
        s.filter(first).filter(second) == s.filter(both),
    decreases s.len(),
{
    reveal(Seq::filter);
    if s.len() > 0 {
        let rest = s.drop_last();
        lemma_filter_twice(rest, first, second, both);
        if first(s.last()) {
            rest.filter(first).lemma_filter_push(s.last(), second);
        }
    }
}

/// What is kept of a list without repetition is without repetition.
pub proof fn lemma_filter_no_duplicates<A>(s: Seq<A>, keep: spec_fn(A) -> bool)
    requires
        s.no_duplicates(),
    ensures
        s.filter(keep).no_duplicates(),
    decreases s.len(),
{
    reveal(Seq::filter);
    if s.len() > 0 {
        let rest = s.drop_last();
        lemma_filter_no_duplicates(rest, keep);
        let kept = rest.filter(keep);
        if kept.contains(s.last()) {
            rest.lemma_filter_contains_rev(keep, s.last());
            let k = choose|k: int| 0 <= k < rest.len() && rest[k] == s.last();
            assert(s[k] == s[s.len() - 1]);
        }
    }
}

/// Each ruler of the list for one length is a ruler of that length, with a mark for each
/// set bit of its state.
pub proof fn lemma_rulers_of_length(length: nat, v: int)
    requires
        1 <= length <= i128::MAX,
        0 <= v < pow2((length - 1) as nat),
    ensures
        rulers_of_length(length).len() == pow2((length - 1) as nat),
        is_ruler(rulers_of_length(length)[v]),
        ruler_length(rulers_of_length(length)[v]) == length,
        rulers_of_length(length)[v].len() == count_set(state_of(v as nat, (length - 1) as nat)) + 1,
        rulers_of_length(length)[v].len() <= length,
{
    let n = (length - 1) as nat;
    let s = state_of(v as nat, n);
    lemma_state_of_len(v as nat, n);
    lemma_ruler_marks(s);
    lemma_interior_marks(s);
    lemma_count_bound(s);
}

/// The check one deep says the same of a state and of its ruler.
pub proof fn lemma_depth_one(s: Seq<bool>)
    requires
        s.len() < i128::MAX,
    ensures
        depth_one(s) == passes_depth_one(ruler_marks(s)),
{
    let n = s.len() as int;
    let inner = interior_marks(s);
    let marks = ruler_marks(s);
    lemma_interior_marks(s);
    if depth_one(s) {
        assert forall|i: int| 0 <= i < marks.len() - 1 implies !marks.contains(
            gap(#[trigger] marks[i] as int, marks.last() as int) as i128,
        ) by {
            let m = marks[i];
            assert(m == inner[i]);
            let d = (n + 1 - m) as i128;
            assert(s[m - 1]);
            assert(!state_contains(s, n - (m - 1)));
            if marks.contains(d) {
                let k = choose|k: int| 0 <= k < marks.len() && marks[k] == d;
                assert(inner[k] == d);
                assert(s[d - 1]);
            }
        }
    }
    if passes_depth_one(marks) {
        assert forall|b: int| 0 <= b < s.len() && #[trigger] s[b] implies !state_contains(
            s,
            s.len() - b,
        ) by {
            let k = choose|k: int| 0 <= k < inner.len() && inner[k] == (b + 1) as i128;
            assert(marks[k] == (b + 1) as i128);
            let d = (n - b) as i128;
            assert(!marks.contains(d));
            if s[d - 1] {
                let l = choose|l: int| 0 <= l < inner.len() && inner[l] == d;
                assert(marks[l] == d);
            }
        }
    }
}

/// One step of a walk: what is kept up to the state that the step finds is what was kept
/// before and the ruler of that state; where the step finds nothing, nothing more is kept.
pub proof fn lemma_walk_step(
    n: nat,
    v: nat,
    wanted: spec_fn(Seq<bool>) -> bool,
    keep: spec_fn(Seq<i128>) -> bool,
)
    requires
        n < i128::MAX,
        v < pow2(n),
        forall|s: Seq<bool>| s.len() == n ==> (#[trigger] wanted(s) <==> keep(ruler_marks(s))),
    ensures
        match first_from(v + 1, n, wanted) {
            Some(t) => {
                &&& t.len() == n
                &&& v < state_value(t) < pow2(n)
                &&& rulers_of_length(n + 1).subrange(1, state_value(t) as int + 1).filter(keep)
                    == rulers_of_length(n + 1).subrange(1, v as int + 1).filter(keep).push(ruler_marks(t))
            },
            None => rulers_of_length(n + 1).drop_first().filter(keep) == rulers_of_length(
                n + 1,
            ).subrange(1, v as int + 1).filter(keep),
        },
{
    let all = rulers_of_length(n + 1);
    lemma_first_from(v + 1, n, wanted);
    match first_from(v + 1, n, wanted) {
        Some(t) => {
            let w = state_value(t);
            lemma_state_of_value(t);
            assert forall|x: int| v + 1 <= x < w implies !keep(#[trigger] all[x]) by {
                lemma_state_of_len(x as nat, n);
                assert(!wanted(state_of(x as nat, n)));
            }
            lemma_filter_skip(all, keep, 1, v as int + 1, w as int);
            lemma_filter_one_more(all, keep, 1, w as int);
            assert(all[w as int] == ruler_marks(t));
        },
        None => {
            assert forall|x: int| v + 1 <= x < pow2(n) implies !keep(#[trigger] all[x]) by {
                lemma_state_of_len(x as nat, n);
                assert(!wanted(state_of(x as nat, n)));
            }
            lemma_filter_skip(all, keep, 1, v as int + 1, pow2(n) as int);
        },
    }
}

/// The pruned walk keeps the rulers with `order` marks.
pub proof fn lemma_with_count(n: nat, order: int)
    requires
        n < i128::MAX,
    ensures
        forall|s: Seq<bool>|
            s.len() == n ==> (#[trigger] with_count(order - 2)(s) <==> has_order(order)(
                ruler_marks(s),
            )),
{
    assert forall|s: Seq<bool>| s.len() == n implies (#[trigger] with_count(order - 2)(s)
        <==> has_order(order)(ruler_marks(s))) by {
        lemma_interior_marks(s);
    }
}

/// The walk with the check one deep keeps the rulers with `order` marks that pass it.
pub proof fn lemma_with_count_and_depth(n: nat, order: int)
    requires
        n < i128::MAX,
    ensures
        forall|s: Seq<bool>|
            s.len() == n ==> (#[trigger] with_count_and_depth(order - 2)(s) <==> passing_of_order(
                order,
            )(ruler_marks(s))),
{
    assert forall|s: Seq<bool>| s.len() == n implies (#[trigger] with_count_and_depth(order - 2)(s)
        <==> passing_of_order(order)(ruler_marks(s))) by {
        lemma_interior_marks(s);
        lemma_depth_one(s);
    }
}

} // verus!
