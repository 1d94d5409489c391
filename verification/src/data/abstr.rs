//! abstr provides the priority-queue capability interface, so that consumers
//! never depend on a concrete engine type.

use crate::data::Countable;
use crate::data::Peekable;
use vstd::prelude::*;

verus! {

/// PriorityQueue is the one interface a consumer needs: enqueue an element,
/// dequeue the top one, peek and count through the supertraits.
///
/// `pq_inv` is the implementor's internal invariant; `can_enqueue` says when
/// the implementor still has room, for instance a sequence counter that is
/// not yet exhausted.
pub trait PriorityQueue<T>: Peekable<T> + Countable {
    spec fn pq_inv(&self) -> bool;

    spec fn can_enqueue(&self) -> bool;

    fn enqueue(&mut self, e: T)
        requires
            old(self).pq_inv(),
            old(self).can_enqueue(),
        ensures
            final(self).pq_inv(),
            final(self).count() == old(self).count() + 1,
    ;

    fn dequeue(&mut self) -> (r: Option<T>)
        requires
            old(self).pq_inv(),
        ensures
            final(self).pq_inv(),
            r == old(self).top(),
            r is None <==> old(self).count() == 0,
            old(self).count() == 0 ==> final(self).count() == 0,
            old(self).count() > 0 ==> final(self).count() == old(self).count() - 1,
            old(self).can_enqueue() ==> final(self).can_enqueue(),
    ;
}

} // verus!
