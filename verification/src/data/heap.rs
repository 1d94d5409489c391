//! heap provides Heap implementations.

pub mod binary;

pub use self::binary::BinaryHeap;
pub use self::binary::Property;

use crate::data::Countable;
use crate::data::Peekable;
use vstd::prelude::*;

verus! {

/// Heap holds elements and always pops the extreme one under its orientation;
/// among elements of equal key, the one inserted first.
///
/// Worst cases: insertion O(log(n)), pop O(log(n)).
///
/// `inv` is the implementor's structural invariant; `can_insert` says when an
/// insertion is still possible, for instance while a sequence counter is not
/// yet exhausted.
pub trait Heap<T>: Peekable<T> + Countable {
    spec fn inv(&self) -> bool;

    spec fn can_insert(&self) -> bool;

    fn insert(&mut self, e: T)
        requires
            old(self).inv(),
            old(self).can_insert(),
        ensures
            final(self).inv(),
            final(self).count() == old(self).count() + 1,
    ;

    fn pop(&mut self) -> (r: Option<T>)
        requires
            old(self).inv(),
        ensures
            final(self).inv(),
            r == old(self).top(),
            r is None <==> old(self).count() == 0,
            old(self).count() == 0 ==> final(self).count() == 0,
            old(self).count() > 0 ==> final(self).count() == old(self).count() - 1,
            old(self).can_insert() ==> final(self).can_insert(),
    ;
}

} // verus!
