//! The strategies to walk through the rulers of one length.

use crate::enumeration::bits::cleared;
use crate::enumeration::state::{depth_next, next_state, pruned_next, ruler_marks, RulerState};
use crate::rulers::GolombRuler;
use vstd::prelude::*;

verus! {

/// Walks through all rulers of length `length`.
pub struct RulerIterator {
    state: Vec<bool>,
    length: usize,
}

/// Walks through the rulers of length `length` that have `order` marks, from the second
/// ruler of that length on. The first, `[0, length]`, is where the walk starts, and it is
/// the one ruler with two marks: for that order the walk lists nothing.
#[derive(Debug)]
pub struct GolombRulerPrunedIterator {
    state: Vec<bool>,
    order: usize,
    length: usize,
}

/// Walks through the rulers of length `length` that have `order` marks and pass the check
/// of `is_golomb_ruler_order_1`, from the second ruler of that length on.
#[derive(Debug)]
pub struct GolombRulerDepthIterator {
    state: Vec<bool>,
    order: usize,
    length: usize,
    depth: usize,
}

impl RulerIterator {
    /// There is a state to walk through: rulers of length 2 have one bit.
    #[verifier::type_invariant]
    spec fn inv(&self) -> bool {
        self.length >= 2
    }

    /// The state that the walk has reached.
    pub closed spec fn state(&self) -> Seq<bool> {
        self.state@
    }

    /// The length of the rulers of the walk.
    pub closed spec fn length(&self) -> nat {
        self.length as nat
    }

    /// A walk before its first ruler.
    pub fn new(length: usize) -> (iter: Self)
        requires
            length >= 2,
        ensures
            iter.state() == cleared((length - 2) as nat),
            iter.length() == length,
    {
        // the first call of next() gives the starting point from this state
        let pre_state = vec![false; length - 2];
        assert(pre_state@ =~= cleared((length - 2) as nat));
        RulerIterator { state: pre_state, length }
    }

    /// The next ruler of the walk, if there is one; after the last the walk stays where it is.
    pub fn next(&mut self) -> (ruler: Option<GolombRuler>)
        ensures
            final(self).length() == old(self).length(),
            match ruler {
                Some(r) => {
                    &&& next_state(old(self).state(), old(self).length()) == Some(final(self).state())
                    &&& r@ == ruler_marks(final(self).state())
                    &&& r.wf()
                },
                None => {
                    &&& next_state(old(self).state(), old(self).length()).is_none()
                    &&& final(self).state() == old(self).state()
                },
            },
    {
        proof {
            use_type_invariant(&*self);
        }
        let next_state = self.state.next(self.length);
        match next_state {
            Some(state) => {
                self.state = state;
                Some(self.state.to_ruler())
            },
            None => None,
        }
    }
}

impl GolombRulerPrunedIterator {
    /// There is a state to walk through: rulers of length 2 have one bit.
    #[verifier::type_invariant]
    spec fn inv(&self) -> bool {
        self.length >= 2
    }

    /// The state that the walk has reached.
    pub closed spec fn state(&self) -> Seq<bool> {
        self.state@
    }

    /// The number of marks of the rulers of the walk.
    pub closed spec fn order(&self) -> nat {
        self.order as nat
    }

    /// The length of the rulers of the walk.
    pub closed spec fn length(&self) -> nat {
        self.length as nat
    }

    /// A walk before its first ruler.
    pub fn new(order: usize, length: usize) -> (iter: Self)
        requires
            length >= 2,
        ensures
            iter.state() == cleared((length - 2) as nat),
            iter.order() == order,
            iter.length() == length,
    {
        // the first call of next() gives the starting point from this state
        let pre_state = vec![false; length - 2];
        assert(pre_state@ =~= cleared((length - 2) as nat));
        GolombRulerPrunedIterator { state: pre_state, order, length }
    }

    /// The next ruler of the walk, if there is one; after the last the walk stays where it is.
    pub fn next(&mut self) -> (ruler: Option<GolombRuler>)
        ensures
            final(self).order() == old(self).order(),
            final(self).length() == old(self).length(),
            match ruler {
                Some(r) => {
                    &&& pruned_next(old(self).state(), old(self).order() as int, old(self).length())
                        == Some(final(self).state())
                    &&& r@ == ruler_marks(final(self).state())
                    &&& r.wf()
                },
                None => {
                    &&& pruned_next(
                        old(self).state(),
                        old(self).order() as int,
                        old(self).length(),
                    ).is_none()
                    &&& final(self).state() == old(self).state()
                },
            },
    {
        proof {
            use_type_invariant(&*self);
        }
        let next_state = self.state.next_pruned(self.order, self.length);
        match next_state {
            Some(state) => {
                self.state = state;
                Some(self.state.to_ruler())
            },
            None => None,
        }
    }
}

impl GolombRulerDepthIterator {
    /// There is a state to walk through: rulers of length 2 have one bit.
    #[verifier::type_invariant]
    spec fn inv(&self) -> bool {
        self.length >= 2
    }

    /// The state that the walk has reached.
    pub closed spec fn state(&self) -> Seq<bool> {
        self.state@
    }

    /// The number of marks of the rulers of the walk.
    pub closed spec fn order(&self) -> nat {
        self.order as nat
    }

    /// The length of the rulers of the walk.
    pub closed spec fn length(&self) -> nat {
        self.length as nat
    }

    /// How deep the check before the full one goes.
    pub closed spec fn depth(&self) -> nat {
        self.depth as nat
    }

    /// A walk before its first ruler. The check goes one deep whatever `depth` says.
    pub fn new(order: usize, length: usize, depth: usize) -> (iter: Self)
        requires
            length >= 2,
        ensures
            iter.state() == cleared((length - 2) as nat),
            iter.order() == order,
            iter.length() == length,
            iter.depth() == depth,
    {
        let pre_state = vec![false; length - 2];
        assert(pre_state@ =~= cleared((length - 2) as nat));
        GolombRulerDepthIterator { state: pre_state, order, length, depth }
    }

    /// The next ruler of the walk, if there is one; after the last the walk stays where it is.
    pub fn next(&mut self) -> (ruler: Option<GolombRuler>)
        ensures
            final(self).order() == old(self).order(),
            final(self).length() == old(self).length(),
            final(self).depth() == old(self).depth(),
            match ruler {
                Some(r) => {
                    &&& depth_next(old(self).state(), old(self).order() as int, old(self).length())
                        == Some(final(self).state())
                    &&& r@ == ruler_marks(final(self).state())
                    &&& r.wf()
                },
                None => {
                    &&& depth_next(
                        old(self).state(),
                        old(self).order() as int,
                        old(self).length(),
                    ).is_none()
                    &&& final(self).state() == old(self).state()
                },
            },
    {
        proof {
            use_type_invariant(&*self);
        }
        let next_state = self.state.next_golomb_depth_1(self.order, self.length);
        match next_state {
            Some(state) => {
                self.state = state;
                Some(self.state.to_ruler())
            },
            None => None,
        }
    }
}

} // verus!
