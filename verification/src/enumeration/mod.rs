//! Functions for enumerating rulers based on order, length, and the Golomb property.

pub mod bits;
pub mod counting;
pub mod iterators;
pub mod listing;
pub mod state;
pub mod steps;

use crate::enumeration::bits::{
    cleared, lemma_count_cleared, lemma_state_of_value, lemma_value_all_set, lemma_value_bound,
    lemma_value_of_state, state_of, state_value,
};
use crate::enumeration::iterators::{
    GolombRulerDepthIterator, GolombRulerPrunedIterator, RulerIterator,
};
use crate::enumeration::listing::{
    depth_rulers, depth_rulers_up_to, depth_walk, golomb_of_order, has_order, is_golomb,
    lemma_filter_one_more, lemma_rulers_of_length, lemma_views_push, lemma_walk_step,
    lemma_with_count, lemma_with_count_and_depth, passing_of_order, pruned_rulers,
    pruned_rulers_up_to, pruned_walk, rulers_of_length, rulers_up_to, rulers_with_length, views,
};
use crate::enumeration::state::{
    extended, ruler_marks, with_count, with_count_and_depth,
};
use crate::rulers::golomb_ruler::{is_ruler, ruler_length};
use crate::rulers::index::{bit_of, id_marks, low_marks, lemma_ruler_marks, width};
use crate::rulers::{GInt, GolombRuler};
use vstd::arithmetic::power2::{lemma2_to64, lemma_pow2_pos, pow2};
use vstd::prelude::*;

verus! {

/// What is wrong with an index of a ruler.
#[derive(Debug, Clone, Copy, PartialEq, Eq)]
pub enum GolombIterationError {
    /// The index of the ruler does not fit in 64 bits.
    IndexOverflow,
}

impl GolombIterationError {
    /// What went wrong, in words.
    pub fn message(&self) -> (text: String)
        ensures
            text@ == "The current golomb ruler index can't be contained in a u64"@,
    {
        match self {
            GolombIterationError::IndexOverflow => String::from_str(
                "The current golomb ruler index can't be contained in a u64",
            ),
        }
    }
}

/// Every ruler of the list has positive, ascending marks, the last of them no more than `max`.
pub open spec fn listed(rulers: Seq<GolombRuler>, max: nat) -> bool {
    forall|i: int|
        0 <= i < rulers.len() ==> is_ruler((#[trigger] rulers[i])@) && ruler_length(rulers[i]@)
            <= max && rulers[i]@.len() <= max
}

/// Append all rulers of length `length`.
fn walk_all(out: &mut Vec<GolombRuler>, length: usize)
    requires
        length >= 2,
        listed(old(out)@, length as nat),
    ensures
        views(final(out)@) == views(old(out)@) + rulers_of_length(length as nat),
        listed(final(out)@, length as nat),
{
    let ghost before = out@;
    let ghost n = (length - 1) as nat;
    let ghost all = rulers_of_length(length as nat);
    let ghost mut seen: nat = 0;
    let mut iter = RulerIterator::new(length);
    let mut more = true;
    assert(views(out@) =~= views(before) + all.take(0));
    while more
        invariant
            length >= 2,
            n == length - 1,
            all == rulers_of_length(length as nat),
            iter.length() == length,
            seen <= pow2(n),
            views(out@) == views(before) + all.take(seen as int),
            listed(out@, length as nat),
            seen == 0 ==> iter.state() == cleared((length - 2) as nat) && more,
            seen > 0 ==> iter.state().len() == n && state_value(iter.state()) == seen - 1,
            !more ==> seen == pow2(n),
        decreases pow2(n) - seen + (if more { 1int } else { 0int }),
    {
        let ghost state = iter.state();
        let ghost done = out@;
        proof {
            lemma_pow2_pos(n);
            lemma_value_bound(state);
            lemma_value_all_set(state);
            lemma_count_cleared(n);
            lemma_state_of_value(cleared(n));
            assert(extended(cleared((length - 2) as nat), n) =~= cleared(n));
        }
        match iter.next() {
            Some(ruler) => {
                proof {
                    lemma_value_of_state(seen, n);
                    lemma_ruler_marks(iter.state());
                    lemma_views_push(done, ruler);
                    assert(all.take(seen as int + 1) =~= all.take(seen as int).push(all[seen as int]));
                    seen = seen + 1;
                }
                out.push(ruler);
            },
            None => {
                more = false;
            },
        }
    }
    assert(all.take(seen as int) =~= all);
}

/// Append the rulers of length `length` that have `order` marks, but for the first ruler
/// of that length.
fn walk_pruned(out: &mut Vec<GolombRuler>, order: usize, length: usize)
    requires
        length >= 2,
        listed(old(out)@, length as nat),
    ensures
        views(final(out)@) == views(old(out)@) + pruned_walk(order as int, length as nat),
        listed(final(out)@, length as nat),
{
    let ghost before = out@;
    let ghost n = (length - 1) as nat;
    let ghost all = rulers_of_length(length as nat);
    let ghost keep = has_order(order as int);
    let ghost mut v: nat = 0;
    let mut iter = GolombRulerPrunedIterator::new(order, length);
    let mut more = true;
    proof {
        lemma_pow2_pos(n);
        lemma_count_cleared(n);
        reveal(Seq::filter);
        assert(extended(cleared((length - 2) as nat), n) =~= cleared(n));
        assert(views(out@) =~= views(before) + all.subrange(1, 1).filter(keep));
        lemma_with_count(n, order as int);
    }
    while more
        invariant
            length >= 2,
            n == length - 1,
            all == rulers_of_length(length as nat),
            keep == has_order(order as int),
            iter.length() == length,
            iter.order() == order,
            iter.state().len() <= n,
            state_value(extended(iter.state(), n)) == v,
            v < pow2(n),
            forall|s: Seq<bool>|
                s.len() == n ==> (#[trigger] with_count(order - 2)(s) <==> keep(ruler_marks(s))),
            listed(out@, length as nat),
            more ==> views(out@) == views(before) + all.subrange(1, v as int + 1).filter(keep),
            !more ==> views(out@) == views(before) + all.drop_first().filter(keep),
        decreases pow2(n) - v + (if more { 1int } else { 0int }),
    {
        let ghost done = out@;
        proof {
            lemma_walk_step(n, v, with_count(order - 2), keep);
        }
        match iter.next() {
            Some(ruler) => {
                proof {
                    let state = iter.state();
                    assert(extended(state, n) =~= state);
                    lemma_ruler_marks(state);
                    lemma_views_push(done, ruler);
                    v = state_value(state);
                }
                out.push(ruler);
            },
            None => {
                more = false;
            },
        }
    }
}

/// Append the rulers of length `length` that have `order` marks and pass the check one
/// deep, but for the first ruler of that length.
fn walk_depth(out: &mut Vec<GolombRuler>, order: usize, length: usize, depth: usize)
    requires
        length >= 2,
        listed(old(out)@, length as nat),
    ensures
        views(final(out)@) == views(old(out)@) + depth_walk(order as int, length as nat),
        listed(final(out)@, length as nat),
{
    let ghost before = out@;
    let ghost n = (length - 1) as nat;
    let ghost all = rulers_of_length(length as nat);
    let ghost keep = passing_of_order(order as int);
    let ghost mut v: nat = 0;
    let mut iter = GolombRulerDepthIterator::new(order, length, depth);
    let mut more = true;
    proof {
        lemma_pow2_pos(n);
        lemma_count_cleared(n);
        reveal(Seq::filter);
        assert(extended(cleared((length - 2) as nat), n) =~= cleared(n));
        assert(views(out@) =~= views(before) + all.subrange(1, 1).filter(keep));
        lemma_with_count_and_depth(n, order as int);
    }
    while more
        invariant
            length >= 2,
            n == length - 1,
            all == rulers_of_length(length as nat),
            keep == passing_of_order(order as int),
            iter.length() == length,
            iter.order() == order,
            iter.state().len() <= n,
            state_value(extended(iter.state(), n)) == v,
            v < pow2(n),
            forall|s: Seq<bool>|
                s.len() == n ==> (#[trigger] with_count_and_depth(order - 2)(s) <==> keep(
                    ruler_marks(s),
                )),
            listed(out@, length as nat),
            more ==> views(out@) == views(before) + all.subrange(1, v as int + 1).filter(keep),
            !more ==> views(out@) == views(before) + all.drop_first().filter(keep),
        decreases pow2(n) - v + (if more { 1int } else { 0int }),
    {
        let ghost done = out@;
        proof {
            lemma_walk_step(n, v, with_count_and_depth(order - 2), keep);
        }
        match iter.next() {
            Some(ruler) => {
                proof {
                    let state = iter.state();
                    assert(extended(state, n) =~= state);
                    lemma_ruler_marks(state);
                    lemma_views_push(done, ruler);
                    v = state_value(state);
                }
                out.push(ruler);
            },
            None => {
                more = false;
            },
        }
    }
}

/// Append the ruler with the two marks 0 and `length`.
fn list_two_marks(out: &mut Vec<GolombRuler>, length: usize)
    requires
        length >= 1,
        listed(old(out)@, length as nat),
    ensures
        views(final(out)@) == views(old(out)@) + seq![seq![length as i128]],
        listed(final(out)@, length as nat),
{
    let ghost before = out@;
    let mut marks: Vec<GInt> = Vec::new();
    marks.push(length as GInt);
    let ruler = GolombRuler::new(marks.as_slice());
    proof {
        lemma_views_push(before, ruler);
        assert(views(before).push(ruler@) =~= views(before) + seq![seq![length as i128]]);
    }
    out.push(ruler);
}

/// Append the rulers of length `length` that have `order` marks. There is one with two
/// marks, and it is the one that the walk starts from and does not list.
fn list_pruned(out: &mut Vec<GolombRuler>, order: usize, length: usize)
    requires
        length >= 2,
        listed(old(out)@, length as nat),
    ensures
        views(final(out)@) == views(old(out)@) + pruned_rulers(order as int, length as nat),
        listed(final(out)@, length as nat),
{
    if order == 2 {
        list_two_marks(out, length);
    } else {
        walk_pruned(out, order, length);
    }
}

/// Append the rulers of length `length` that have `order` marks and pass the check one
/// deep. The one with two marks passes, and the walk does not list it.
fn list_depth(out: &mut Vec<GolombRuler>, order: usize, length: usize, depth: usize)
    requires
        length >= 2,
        listed(old(out)@, length as nat),
    ensures
        views(final(out)@) == views(old(out)@) + depth_rulers(order as int, length as nat),
        listed(final(out)@, length as nat),
{
    if order == 2 {
        list_two_marks(out, length);
    } else {
        walk_depth(out, order, length, depth);
    }
}

/// The rulers of a list that have `order` marks, in their order.
fn keep_order(rulers: &Vec<GolombRuler>, order: usize, Ghost(max): Ghost<nat>) -> (kept: Vec<
    GolombRuler,
>)
    requires
        listed(rulers@, max),
        max < usize::MAX,
    ensures
        views(kept@) == views(rulers@).filter(has_order(order as int)),
        listed(kept@, max),
{
    let ghost keep = has_order(order as int);
    let ghost all = views(rulers@);
    let mut kept: Vec<GolombRuler> = Vec::new();
    let mut i: usize = 0;
    proof {
        reveal(Seq::filter);
        assert(views(kept@) =~= all.subrange(0, 0).filter(keep));
    }
    while i < rulers.len()
        invariant
            i <= rulers@.len(),
            all == views(rulers@),
            keep == has_order(order as int),
            listed(rulers@, max),
            max < usize::MAX,
            listed(kept@, max),
            views(kept@) == all.subrange(0, i as int).filter(keep),
        decreases rulers@.len() - i,
    {
        proof {
            lemma_filter_one_more(all, keep, 0, i as int);
        }
        if rulers[i].order() == order {
            let ghost done = kept@;
            let copy = rulers[i].clone();
            proof {
                lemma_views_push(done, copy);
            }
            kept.push(copy);
        }
        i += 1;
    }
    assert(all.subrange(0, i as int) =~= all);
    kept
}

/// The rulers of a list that have the Golomb property, in their order.
fn keep_golomb(rulers: &Vec<GolombRuler>, Ghost(max): Ghost<nat>) -> (kept: Vec<GolombRuler>)
    requires
        listed(rulers@, max),
    ensures
        views(kept@) == views(rulers@).filter(is_golomb()),
        listed(kept@, max),
{
    let ghost keep = is_golomb();
    let ghost all = views(rulers@);
    let mut kept: Vec<GolombRuler> = Vec::new();
    let mut i: usize = 0;
    proof {
        reveal(Seq::filter);
        assert(views(kept@) =~= all.subrange(0, 0).filter(keep));
    }
    while i < rulers.len()
        invariant
            i <= rulers@.len(),
            all == views(rulers@),
            keep == is_golomb(),
            listed(rulers@, max),
            listed(kept@, max),
            views(kept@) == all.subrange(0, i as int).filter(keep),
        decreases rulers@.len() - i,
    {
        proof {
            lemma_filter_one_more(all, keep, 0, i as int);
        }
        if rulers[i].is_golomb_ruler() {
            let ghost done = kept@;
            let copy = rulers[i].clone();
            proof {
                lemma_views_push(done, copy);
            }
            kept.push(copy);
        }
        i += 1;
    }
    assert(all.subrange(0, i as int) =~= all);
    kept
}

/// The rulers of a list that have `order` marks and the Golomb property, in their order.
/// With a `length`, a ruler must have that length as well.
fn keep_golomb_of_order(
    rulers: &Vec<GolombRuler>,
    order: usize,
    length: Option<usize>,
    Ghost(max): Ghost<nat>,
) -> (kept: Vec<GolombRuler>)
    requires
        listed(rulers@, max),
        max < usize::MAX,
        match length {
            Some(l) => forall|i: int|
                0 <= i < rulers@.len() ==> ruler_length((#[trigger] rulers@[i])@) == l,
            None => true,
        },
    ensures
        views(kept@) == views(rulers@).filter(golomb_of_order(order as int)),
        listed(kept@, max),
{
    let ghost keep = golomb_of_order(order as int);
    let ghost all = views(rulers@);
    let mut kept: Vec<GolombRuler> = Vec::new();
    let mut i: usize = 0;
    proof {
        reveal(Seq::filter);
        assert(views(kept@) =~= all.subrange(0, 0).filter(keep));
    }
    while i < rulers.len()
        invariant
            i <= rulers@.len(),
            all == views(rulers@),
            keep == golomb_of_order(order as int),
            listed(rulers@, max),
            max < usize::MAX,
            match length {
                Some(l) => forall|i: int|
                    0 <= i < rulers@.len() ==> ruler_length((#[trigger] rulers@[i])@) == l,
                None => true,
            },
            listed(kept@, max),
            views(kept@) == all.subrange(0, i as int).filter(keep),
        decreases rulers@.len() - i,
    {
        proof {
            lemma_filter_one_more(all, keep, 0, i as int);
        }
        let r = &rulers[i];
        let of_length = match length {
            Some(l) => r.length() == l as GInt,
            None => true,
        };
        if r.order() == order && r.is_golomb_ruler() && of_length {
            let ghost done = kept@;
            let copy = r.clone();
            proof {
                lemma_views_push(done, copy);
            }
            kept.push(copy);
        }
        i += 1;
    }
    assert(all.subrange(0, i as int) =~= all);
    kept
}

/// Exhaustively enumerate all rulers of the lengths from 2 up to `max_length`, length by
/// length.
pub fn enumerate_rulers(max_length: usize) -> (rulers: Vec<GolombRuler>)
    requires
        max_length < usize::MAX,
    ensures
        views(rulers@) == rulers_up_to(max_length as nat),
        listed(rulers@, max_length as nat),
{
    let mut all_rulers: Vec<GolombRuler> = Vec::new();
    let mut length: usize = 2;
    assert(views(all_rulers@) =~= rulers_up_to(1));
    while length < max_length + 1
        invariant
            2 <= length,
            max_length < usize::MAX,
            max_length >= 2 ==> length <= max_length + 1,
            max_length < 2 ==> length == 2,
            views(all_rulers@) == rulers_up_to((length - 1) as nat),
            listed(all_rulers@, (length - 1) as nat),
        decreases max_length + 1 - length,
    {
        walk_all(&mut all_rulers, length);
        length += 1;
    }
    all_rulers
}

/// Enumerate all rulers of length `length`. The lengths 0 and 1 have one ruler each.
pub fn enumerate_rulers_with_length(length: usize) -> (rulers: Vec<GolombRuler>)
    ensures
        views(rulers@) == rulers_with_length(length as nat),
        listed(rulers@, length as nat),
{
    let mut rulers: Vec<GolombRuler> = Vec::new();
    if length == 0 {
        rulers.push(GolombRuler::from_id(0));
        proof {
            assert(views(rulers@) =~= rulers_with_length(0));
        }
    } else if length == 1 {
        rulers.push(GolombRuler::from_id(1));
        proof {
            lemma2_to64();
            assert(width(1) == 1 + width(0));
            assert(bit_of(1, 0));
            assert(low_marks(1, 0) =~= Seq::<i128>::empty());
            assert(id_marks(1) =~= seq![1i128]);
            assert(state_of(0, 0) =~= Seq::<bool>::empty());
            assert(ruler_marks(Seq::<bool>::empty()) =~= seq![1i128]);
            assert(views(rulers@) =~= rulers_with_length(1));
        }
    } else {
        walk_all(&mut rulers, length);
    }
    rulers
}

/// Enumerate the rulers with `order` marks and length `length`, whether Golomb rulers or
/// not. With two marks there is the one ruler `[0, length]`.
pub fn enumerate_pruned_rulers(order: usize, length: usize) -> (rulers: Vec<GolombRuler>)
    requires
        order == 2 || length >= 2,
    ensures
        views(rulers@) == pruned_rulers(order as int, length as nat),
{
    let mut rulers: Vec<GolombRuler> = Vec::new();
    if order == 2 {
        let mut marks: Vec<GInt> = Vec::new();
        marks.push(length as GInt);
        rulers.push(GolombRuler::new(marks.as_slice()));
        assert(views(rulers@) =~= seq![seq![length as i128]]);
        return rulers;
    }
    walk_pruned(&mut rulers, order, length);
    assert(views(rulers@) =~= pruned_walk(order as int, length as nat));
    rulers
}

/// Get all rulers with `order` marks of the lengths from 2 up to `length`. They do not have
/// to have the Golomb property.
pub fn enumerate_rulers_with_order(order: usize, length: usize) -> (rulers: Vec<GolombRuler>)
    requires
        length < usize::MAX,
    ensures
        views(rulers@) == rulers_up_to(length as nat).filter(has_order(order as int)),
        listed(rulers@, length as nat),
{
    let rulers = enumerate_rulers(length);
    keep_order(&rulers, order, Ghost(length as nat))
}

/// Enumerate every Golomb ruler with `order` marks of the lengths from 2 up to `max_length`.
pub fn enumerate_golomb_rulers(order: usize, max_length: usize) -> (rulers: Vec<GolombRuler>)
    requires
        max_length < usize::MAX,
    ensures
        views(rulers@) == rulers_up_to(max_length as nat).filter(golomb_of_order(order as int)),
        listed(rulers@, max_length as nat),
{
    let all_rulers = enumerate_rulers(max_length);
    keep_golomb_of_order(&all_rulers, order, None, Ghost(max_length as nat))
}

/// Enumerate every Golomb ruler with `order` marks and length `length`.
pub fn enumerate_golomb_rulers_with_length(order: usize, length: usize) -> (rulers: Vec<
    GolombRuler,
>)
    requires
        2 <= length < usize::MAX,
    ensures
        views(rulers@) == rulers_of_length(length as nat).filter(golomb_of_order(order as int)),
        listed(rulers@, length as nat),
{
    let mut all_rulers: Vec<GolombRuler> = Vec::new();
    walk_all(&mut all_rulers, length);
    proof {
        assert(views(all_rulers@) =~= rulers_of_length(length as nat));
        assert forall|i: int| 0 <= i < all_rulers@.len() implies ruler_length(
            (#[trigger] all_rulers@[i])@,
        ) == length by {
            lemma_rulers_of_length(length as nat, i);
            assert(views(all_rulers@)[i] == all_rulers@[i]@);
        }
    }
    keep_golomb_of_order(&all_rulers, order, Some(length), Ghost(length as nat))
}

/// Enumerate the Golomb rulers with `order` marks of the lengths from 2 up to `max_length`,
/// walking through the rulers of that order only.
pub fn enumerate_golomb_rulers_pruned(order: usize, max_length: usize) -> (rulers: Vec<
    GolombRuler,
>)
    requires
        max_length < usize::MAX,
    ensures
        views(rulers@) == pruned_rulers_up_to(order as int, max_length as nat).filter(is_golomb()),
        listed(rulers@, max_length as nat),
{
    let mut all_rulers: Vec<GolombRuler> = Vec::new();
    let mut length: usize = 2;
    assert(views(all_rulers@) =~= pruned_rulers_up_to(order as int, 1));
    while length < max_length + 1
        invariant
            2 <= length,
            max_length < usize::MAX,
            max_length >= 2 ==> length <= max_length + 1,
            max_length < 2 ==> length == 2,
            views(all_rulers@) == pruned_rulers_up_to(order as int, (length - 1) as nat),
            listed(all_rulers@, (length - 1) as nat),
        decreases max_length + 1 - length,
    {
        list_pruned(&mut all_rulers, order, length);
        length += 1;
    }
    keep_golomb(&all_rulers, Ghost(max_length as nat))
}

/// Enumerate the Golomb rulers with `order` marks and length `length`, walking through the
/// rulers of that order only.
pub fn enumerate_golomb_rulers_pruned_with_length(order: usize, length: usize) -> (rulers: Vec<
    GolombRuler,
>)
    requires
        length >= 2,
    ensures
        views(rulers@) == pruned_rulers(order as int, length as nat).filter(is_golomb()),
        listed(rulers@, length as nat),
{
    let mut all_rulers: Vec<GolombRuler> = Vec::new();
    list_pruned(&mut all_rulers, order, length);
    assert(views(all_rulers@) =~= pruned_rulers(order as int, length as nat));
    keep_golomb(&all_rulers, Ghost(length as nat))
}

/// Enumerate the rulers with `order` marks of the lengths from 2 up to `max_length` that
/// pass the check one deep. The check goes one deep whatever `depth` says.
pub fn enumerate_golomb_rulers_depth(order: usize, max_length: usize, depth: usize) -> (rulers:
    Vec<GolombRuler>)
    requires
        max_length < usize::MAX,
    ensures
        views(rulers@) == depth_rulers_up_to(order as int, max_length as nat),
        listed(rulers@, max_length as nat),
{
    let mut all_rulers: Vec<GolombRuler> = Vec::new();
    let mut length: usize = 2;
    assert(views(all_rulers@) =~= depth_rulers_up_to(order as int, 1));
    while length < max_length + 1
        invariant
            2 <= length,
            max_length < usize::MAX,
            max_length >= 2 ==> length <= max_length + 1,
            max_length < 2 ==> length == 2,
            views(all_rulers@) == depth_rulers_up_to(order as int, (length - 1) as nat),
            listed(all_rulers@, (length - 1) as nat),
        decreases max_length + 1 - length,
    {
        list_depth(&mut all_rulers, order, length, depth);
        length += 1;
    }
    all_rulers
}

/// Enumerate the rulers with `order` marks and length `length` that pass the check one deep.
pub fn enumerate_golomb_rulers_depth_with_length(order: usize, length: usize, depth: usize) -> (rulers:
    Vec<GolombRuler>)
    requires
        length >= 2,
    ensures
        views(rulers@) == depth_rulers(order as int, length as nat),
        listed(rulers@, length as nat),
{
    let mut all_rulers: Vec<GolombRuler> = Vec::new();
    list_depth(&mut all_rulers, order, length, depth);
    assert(views(all_rulers@) =~= depth_rulers(order as int, length as nat));
    all_rulers
}

} // verus!
