//! Iterators whose items borrow from the iterator itself.

use vstd::prelude::*;

verus! {

/// An iterator that lends each item from its own state, so an item lives only until the
/// next call.
pub trait OwnedIterator {
    /// The item lent by `next`.
    type Item<'a> where Self: 'a;

    /// Advances and lends the next item, or gives `None` when there is none.
    fn next<'a>(&'a mut self) -> Option<Self::Item<'a>>;
}

} // verus!
