//! Random order for lists.

use crate::random::{RandomError, RandomIter};
use vstd::prelude::*;

verus! {

/// Lists whose items can be handed out in random order.
pub trait Random<'a, T> {
    /// The items that will be handed out.
    spec fn listed(&self) -> Seq<&'a T>;

    /// Hands the items out in random order. There must be an item, and no
    /// more than an eighth of what `usize` can count. A single item needs no
    /// random bytes, so that the random source cannot fail it.
    fn random(self) -> (r: Result<RandomIter<'a, T>, RandomError>)
        requires
            0 < self.listed().len() <= usize::MAX / 8,
        ensures
            r matches Ok(iter) ==> (iter.wf() && iter.items() == self.listed() && iter.left()
                == self.listed().len() && (self.listed().len() == 1 ==> iter.random().len()
                == 0)),
            self.listed().len() == 1 ==> r is Ok,
    ;
}

impl<'a, T> Random<'a, T> for Vec<&'a T> {
    open spec fn listed(&self) -> Seq<&'a T> {
        self@
    }

    fn random(self) -> (r: Result<RandomIter<'a, T>, RandomError>) {
        RandomIter::new(self)
    }
}

} // verus!
