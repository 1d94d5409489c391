//! data provides the element types, the capability traits and the heap.

pub mod abstr;
pub mod elem;
pub mod heap;

use vstd::prelude::*;

verus! {

/// Countable exposes the number of elements a container currently holds.
pub trait Countable {
    /// The number of elements, as the contracts speak of it.
    spec fn count(&self) -> nat;

    fn len(&self) -> (r: usize)
        ensures
            r as nat == self.count(),
    ;
}

/// Peekable exposes the element a container would surrender next, without
/// removing it.
pub trait Peekable<T> {
    /// The element at the top, or `None` when the container is empty.
    spec fn top(&self) -> Option<T>;

    fn peek(&self) -> (r: Option<&T>)
        ensures
            match r {
                None => self.top() is None,
                Some(p) => self.top() == Some(*p),
            },
    ;
}

} // verus!
