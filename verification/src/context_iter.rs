//! An iteration abstraction for iterators that do not hold a borrow of the
//! collection they walk: each step takes the collection (the "context") as
//! an explicit argument, so the collection may be mutated between steps.

use vstd::prelude::*;

verus! {

/// Pulls one value per step, given the context it is iterating over.
///
/// `ok` is the iterator's well-formedness with respect to a context; a step
/// demands it and re-establishes it for the same context.
pub trait ContextIterator<Context> {
    type Item;

    spec fn ok(&self, context: &Context) -> bool;

    fn next(&mut self, context: &Context) -> (r: Option<Self::Item>)
        requires
            old(self).ok(context),
        ensures
            final(self).ok(context),
    ;
}

} // verus!
