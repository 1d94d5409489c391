//! binary provides an array-backed binary heap.

use crate::data::abstr::PriorityQueue;
use crate::data::elem::ranked_below;
use crate::data::elem::KVPair;
use crate::data::elem::OrdElem;
use crate::data::heap::Heap;
use crate::data::Countable;
use crate::data::Peekable;
use vstd::multiset::Multiset;
use vstd::prelude::*;

verus! {

/// Property is the orientation of a heap: whether the top element is the one
/// with the largest key or with the smallest. It is chosen at construction
/// and never changes.
#[derive(Clone, Copy)]
pub enum Property {
    Min,
    Max,
}

/// The parent of the node at index `i` of the array form of a complete
/// binary tree; meaningful for `i >= 1`.
pub open spec fn parent_index(i: int) -> int {
    (i - 1) / 2
}

/// Whether `a` may sit above `b` in a heap of orientation `prop`: in a
/// max-heap the parent is strictly greater under the ranked order, in a
/// min-heap strictly smaller. On distinct order values this relation is
/// total.
pub open spec fn above<V>(prop: Property, a: OrdElem<V>, b: OrdElem<V>) -> bool {
    match prop {
        Property::Max => ranked_below(b, a),
        Property::Min => ranked_below(a, b),
    }
}

/// `above`, or the two elements are one and the same value.
pub open spec fn above_eq<V>(prop: Property, a: OrdElem<V>, b: OrdElem<V>) -> bool {
    a == b || above(prop, a, b)
}

/// The heap-order invariant: every element that has a parent sits below it
/// under the orientation.
pub open spec fn heap_ordered<V>(prop: Property, s: Seq<OrdElem<V>>) -> bool {
    forall|i: int| 1 <= i < s.len() ==> above(prop, s[parent_index(i)], #[trigger] s[i])
}

/// The order value handed out by the `used + 1`-th insertion of a heap of
/// orientation `prop`: a max-heap counts down from the top of the range so
/// that earlier insertions rank higher on equal keys, a min-heap counts up
/// from zero so that earlier insertions rank lower.
pub open spec fn next_order(prop: Property, used: usize) -> usize {
    match prop {
        Property::Max => (usize::MAX - used) as usize,
        Property::Min => used,
    }
}

/// Whether `o` is one of the order values a heap of orientation `prop` has
/// handed out within its first `used` insertions.
pub open spec fn order_used(prop: Property, used: usize, o: usize) -> bool {
    match prop {
        Property::Max => o > usize::MAX - used,
        Property::Min => o < used,
    }
}

/// No two elements carry the same order value.
pub open spec fn orders_distinct<V>(s: Seq<OrdElem<V>>) -> bool {
    forall|i: int, j: int|
        0 <= i < j < s.len() ==> (#[trigger] s[i]).order != (#[trigger] s[j]).order
}

/// Every element's order value was handed out by one of the first `used`
/// insertions.
pub open spec fn orders_issued<V>(prop: Property, used: usize, s: Seq<OrdElem<V>>) -> bool {
    forall|i: int| 0 <= i < s.len() ==> order_used(prop, used, (#[trigger] s[i]).order)
}

/// The sift-up invariant: storage is heap-ordered everywhere except that the
/// element at `n` may still violate order against its own parent; and, so
/// that a swap with the parent mends more than it breaks, the element at
/// `n`'s parent already stands above `n`'s children.
spec fn sift_up_inv<V>(prop: Property, s: Seq<OrdElem<V>>, n: int) -> bool {
    &&& forall|i: int|
        1 <= i < s.len() && i != n ==> above(prop, s[parent_index(i)], #[trigger] s[i])
    &&& forall|c: int|
        1 <= c < s.len() && parent_index(c) == n && n >= 1 ==> above(
            prop,
            s[parent_index(n)],
            #[trigger] s[c],
        )
}

/// Relies on `<[T]>::swap`: exchanges the elements at indices `i` and `j` in
/// place.
#[verifier::external_body]
fn swap_entries<T>(v: &mut Vec<T>, i: usize, j: usize)
    requires
        i < old(v)@.len(),
        j < old(v)@.len(),
    ensures
        final(v)@ == old(v)@.update(i as int, old(v)@[j as int]).update(
            j as int,
            old(v)@[i as int],
        ),
{
    v.swap(i, j);
}

/// Exchanging two elements of a sequence leaves its multiset of elements as
/// it was.
proof fn lemma_swap_preserves_multiset<A>(s: Seq<A>, i: int, j: int)
    requires
        0 <= i < s.len(),
        0 <= j < s.len(),
    ensures
        s.update(i, s[j]).update(j, s[i]).to_multiset() == s.to_multiset(),
{
    broadcast use vstd::seq_lib::group_to_multiset_ensures;
    broadcast use vstd::multiset::group_multiset_axioms;

    if i == j {
        assert(s.update(i, s[j]).update(j, s[i]) =~= s);
    } else {
        let t = s.update(i, s[j]);
        assert(s.contains(s[i]));
        assert(s.contains(s[j]));
        assert(t.contains(s[j])) by {
            assert(t[j] == s[j]);
        }
        assert(t.update(j, s[i]).to_multiset() =~= s.to_multiset());
    }
}

/// A sequence whose order values are pairwise distinct keeps that property
/// when two of its elements change places.
proof fn lemma_swap_preserves_distinct<V>(s: Seq<OrdElem<V>>, i: int, j: int)
    requires
        0 <= i < s.len(),
        0 <= j < s.len(),
        orders_distinct(s),
    ensures
        orders_distinct(s.update(i, s[j]).update(j, s[i])),
{
    let t = s.update(i, s[j]).update(j, s[i]);
    assert forall|a: int, b: int| 0 <= a < b < t.len() implies (#[trigger] t[a]).order != (
    #[trigger] t[b]).order by {
        let a0: int = if a == i {
            j
        } else if a == j {
            i
        } else {
            a
        };
        let b0: int = if b == i {
            j
        } else if b == j {
            i
        } else {
            b
        };
        assert(t[a] == s[a0] && t[b] == s[b0]);
        if a0 < b0 {
            assert(s[a0].order != s[b0].order);
        } else {
            assert(s[b0].order != s[a0].order);
        }
    }
}

/// One step of sift-up: when the element at `n` violates order against its
/// parent, swapping the two re-establishes the sift-up invariant one level
/// closer to the root.
proof fn lemma_sift_up_step<V>(prop: Property, s: Seq<OrdElem<V>>, n: int)
    requires
        orders_distinct(s),
        sift_up_inv(prop, s, n),
        1 <= n < s.len(),
        !above(prop, s[parent_index(n)], s[n]),
    ensures
        sift_up_inv(
            prop,
            s.update(parent_index(n), s[n]).update(n, s[parent_index(n)]),
            parent_index(n),
        ),
{
    let p = parent_index(n);
    let t = s.update(p, s[n]).update(n, s[p]);
    assert(0 <= p < n);
    assert(s[p].order != s[n].order);
    assert(above(prop, s[n], s[p]));
    assert forall|i: int| 1 <= i < t.len() && i != p implies above(
        prop,
        t[parent_index(i)],
        #[trigger] t[i],
    ) by {
        let pi = parent_index(i);
        assert(0 <= pi < i);
        if i == n {
            assert(t[i] == s[p] && t[pi] == s[n]);
        } else if pi == n {
            assert(above(prop, s[p], s[i]));
            assert(t[i] == s[i] && t[pi] == s[p]);
        } else if pi == p {
            assert(above(prop, s[p], s[i]));
            assert(t[i] == s[i] && t[pi] == s[n]);
        } else {
            assert(above(prop, s[pi], s[i]));
            assert(t[i] == s[i] && t[pi] == s[pi]);
        }
    }
    assert forall|c: int| 1 <= c < t.len() && parent_index(c) == p && p >= 1 implies above(
        prop,
        t[parent_index(p)],
        #[trigger] t[c],
    ) by {
        let g = parent_index(p);
        assert(0 <= g < p);
        assert(t[g] == s[g]);
        if c == n {
            assert(above(prop, s[g], s[p]));
            assert(t[c] == s[p]);
        } else {
            assert(above(prop, s[g], s[p]));
            assert(above(prop, s[p], s[c]));
            assert(t[c] == s[c]);
        }
    }
}

/// The sift-down invariant: storage is heap-ordered everywhere except that
/// the element at `n` may still violate order against its children; and the
/// element above `n` already stands above `n`'s children.
spec fn sift_down_inv<V>(prop: Property, s: Seq<OrdElem<V>>, n: int) -> bool {
    &&& forall|i: int|
        1 <= i < s.len() && parent_index(i) != n ==> above(prop, s[parent_index(i)], #[trigger] s[i])
    &&& forall|c: int|
        1 <= c < s.len() && parent_index(c) == n && n >= 1 ==> above(
            prop,
            s[parent_index(n)],
            #[trigger] s[c],
        )
}

/// One step of sift-down: when the child at `c` violates order against its
/// parent at `n`, and no other child of `n` stands above that child, swapping
/// the two re-establishes the sift-down invariant one level further down.
proof fn lemma_sift_down_step<V>(prop: Property, s: Seq<OrdElem<V>>, n: int, c: int)
    requires
        orders_distinct(s),
        sift_down_inv(prop, s, n),
        0 <= n < c < s.len(),
        parent_index(c) == n,
        !above(prop, s[n], s[c]),
        forall|d: int|
            1 <= d < s.len() && parent_index(d) == n && d != c ==> above(prop, s[n], #[trigger] s[d])
                || above(prop, s[c], #[trigger] s[d]),
    ensures
        sift_down_inv(prop, s.update(n, s[c]).update(c, s[n]), c),
{
    let t = s.update(n, s[c]).update(c, s[n]);
    assert(s[n].order != s[c].order);
    assert(above(prop, s[c], s[n]));
    assert forall|i: int| 1 <= i < t.len() && parent_index(i) != c implies above(
        prop,
        t[parent_index(i)],
        #[trigger] t[i],
    ) by {
        let pi = parent_index(i);
        assert(0 <= pi < i);
        if i == c {
            assert(t[i] == s[n] && t[pi] == s[c]);
        } else if pi == n {
            assert(above(prop, s[n], s[i]) || above(prop, s[c], s[i]));
            assert(t[i] == s[i] && t[pi] == s[c]);
        } else if i == n {
            assert(above(prop, s[parent_index(n)], s[c]));
            assert(t[i] == s[c] && t[pi] == s[pi]);
        } else {
            assert(above(prop, s[pi], s[i]));
            assert(t[i] == s[i] && t[pi] == s[pi]);
        }
    }
    assert forall|d: int| 1 <= d < t.len() && parent_index(d) == c && c >= 1 implies above(
        prop,
        t[parent_index(c)],
        #[trigger] t[d],
    ) by {
        assert(c < d);
        assert(above(prop, s[c], s[d]));
        assert(t[d] == s[d] && t[n] == s[c]);
    }
}

/// Law: in a heap-ordered storage the root stands above every element, so
/// the element a pop or a peek hands out is the extreme one under the
/// orientation — and, on equal keys, the one with the winning order value.
pub proof fn lemma_root_dominates<V>(prop: Property, s: Seq<OrdElem<V>>, i: int)
    requires
        heap_ordered(prop, s),
        0 <= i < s.len(),
    ensures
        above_eq(prop, s[0], s[i]),
    decreases i,
{
    if i >= 1 {
        let p = parent_index(i);
        assert(0 <= p < i);
        lemma_root_dominates(prop, s, p);
        assert(above(prop, s[p], s[i]));
    }
}

/// BinaryHeap maintains a complete binary tree in array form...
///   - whose root is the extreme element under the orientation, and among
///     elements of equal key, the first inserted;
///   - which is complete: the array has no gaps.
pub struct BinaryHeap<V> {
    state: Vec<OrdElem<V>>,
    used: usize,
    prop: Property,
}

impl<V> View for BinaryHeap<V> {
    type V = Seq<OrdElem<V>>;

    closed spec fn view(&self) -> Seq<OrdElem<V>> {
        self.state@
    }
}

impl<V> BinaryHeap<V> {
    /// The orientation chosen at construction.
    pub closed spec fn orientation(&self) -> Property {
        self.prop
    }

    /// How many insertions this heap has performed over its lifetime; pops do
    /// not take it back down. It doubles as the sequence counter.
    pub closed spec fn inserted(&self) -> usize {
        self.used
    }

    /// Well-formedness: heap-ordered storage whose order values are pairwise
    /// distinct and all handed out by this heap's own insertions.
    pub open spec fn wf(&self) -> bool {
        &&& heap_ordered(self.orientation(), self@)
        &&& orders_distinct(self@)
        &&& orders_issued(self.orientation(), self.inserted(), self@)
    }

    /// An empty max-oriented heap: the top is the element with the largest
    /// key, ties going to the earliest inserted.
    pub fn max() -> (r: Self)
        ensures
            r.wf(),
            r@ == Seq::<OrdElem<V>>::empty(),
            r.orientation() == Property::Max,
            r.inserted() == 0,
    {
        BinaryHeap { state: Vec::new(), used: 0, prop: Property::Max }
    }

    /// An empty min-oriented heap: the top is the element with the smallest
    /// key, ties going to the earliest inserted.
    pub fn min() -> (r: Self)
        ensures
            r.wf(),
            r@ == Seq::<OrdElem<V>>::empty(),
            r.orientation() == Property::Min,
            r.inserted() == 0,
    {
        BinaryHeap { state: Vec::new(), used: 0, prop: Property::Min }
    }

    /// Whether the element at `p` may stand as the parent of the element at
    /// `c` under this heap's orientation.
    fn valid(&self, p: usize, c: usize) -> (r: bool)
        requires
            p < self@.len(),
            c < self@.len(),
        ensures
            r == above(self.orientation(), self@[p as int], self@[c as int]),
    {
        let a = &self.state[p];
        let b = &self.state[c];
        match self.prop {
            Property::Min => a.below(b),
            Property::Max => b.below(a),
        }
    }

    /// Walks the whole storage — with a plain index worklist rather than
    /// recursion — and reports whether every element sits below its parent:
    /// the structural heap-order check the test suite runs after each
    /// mutating operation.
    pub fn consistent(&self) -> (r: bool)
        ensures
            r == heap_ordered(self.orientation(), self@),
    {
        let len = self.state.len();
        let mut i: usize = 1;
        while i < len
            invariant
                1 <= i,
                len == self@.len(),
                forall|j: int|
                    1 <= j < i ==> above(self.orientation(), self@[parent_index(j)], #[trigger] self@[j]),
            decreases len - i,
        {
            let p = (i - 1) / 2;
            if !self.valid(p, i) {
                proof {
                    assert(!above(self.orientation(), self@[parent_index(i as int)], self@[i as int]));
                }
                return false;
            }
            i = i + 1;
        }
        true
    }

    /// The parent's index, when the element at `n` violates heap-order
    /// against its parent; `None` when `n` is the root or its parent stands
    /// above it.
    fn invalid_parent(&self, n: usize) -> (r: Option<usize>)
        requires
            n < self@.len(),
        ensures
            match r {
                Some(p) => n >= 1 && p == parent_index(n as int) && !above(
                    self.orientation(),
                    self@[p as int],
                    self@[n as int],
                ),
                None => n == 0 || above(
                    self.orientation(),
                    self@[parent_index(n as int)],
                    self@[n as int],
                ),
            },
    {
        if n > 0 {
            let p = (n - 1) / 2;
            if self.valid(p, n) {
                None
            } else {
                Some(p)
            }
        } else {
            None
        }
    }

    /// Among the children of the element at `n`, the index of one that
    /// violates heap-order against it and that no other child of `n` stands
    /// above; `None` when every child in storage sits below `n`'s element.
    /// When both children violate order, the more extreme of the two is
    /// chosen, so that a swap leaves the other child below it.
    fn invalid_child(&self, n: usize) -> (r: Option<usize>)
        requires
            n < self@.len(),
            orders_distinct(self@),
        ensures
            match r {
                Some(c) => {
                    &&& n < c < self@.len()
                    &&& parent_index(c as int) == n as int
                    &&& !above(self.orientation(), self@[n as int], self@[c as int])
                    &&& forall|d: int|
                        1 <= d < self@.len() && parent_index(d) == n as int && d != c as int
                            ==> above(self.orientation(), self@[n as int], #[trigger] self@[d])
                            || above(self.orientation(), self@[c as int], #[trigger] self@[d])
                },
                None => forall|c: int|
                    1 <= c < self@.len() && parent_index(c) == n as int ==> above(
                        self.orientation(),
                        self@[n as int],
                        #[trigger] self@[c],
                    ),
            },
    {
        let len = self.state.len();
        if n >= len / 2 {
            proof {
                assert forall|c: int| 1 <= c < self@.len() && parent_index(c) == n as int implies
                    above(self.orientation(), self@[n as int], #[trigger] self@[c]) by {
                    assert(c == 2 * (n as int) + 1 || c == 2 * (n as int) + 2);
                    assert(c >= len);
                }
            }
            return None;
        }
        let l = 2 * n + 1;
        let r = 2 * n + 2;
        proof {
            assert(l < len);
            assert forall|d: int|
                1 <= d < self@.len() && parent_index(d) == n as int implies d == l as int || d
                == r as int by {
                assert(d == 2 * (n as int) + 1 || d == 2 * (n as int) + 2);
            }
        }
        let left_invalid = !self.valid(n, l);
        let right_invalid = r < len && !self.valid(n, r);
        if left_invalid && right_invalid {
            proof {
                assert(self@[l as int].order != self@[r as int].order);
            }
            if self.valid(l, r) {
                Some(l)
            } else {
                Some(r)
            }
        } else if left_invalid {
            Some(l)
        } else if right_invalid {
            Some(r)
        } else {
            None
        }
    }

    /// Appends a freshly ranked element at the end of storage, then sifts it
    /// up until its parent stands above it. The new element's order value is
    /// the next one of this heap's counter; the counter advances, and must
    /// not be exhausted.
    pub fn insert(&mut self, e: KVPair<V>)
        requires
            old(self).wf(),
            old(self).inserted() < usize::MAX,
        ensures
            final(self).wf(),
            final(self).orientation() == old(self).orientation(),
            final(self).inserted() == old(self).inserted() + 1,
            final(self)@.len() == old(self)@.len() + 1,
            final(self)@.to_multiset() == old(self)@.to_multiset().insert(
                OrdElem {
                    elem: e,
                    order: next_order(old(self).orientation(), old(self).inserted()),
                },
            ),
    {
        let o: usize = match self.prop {
            Property::Max => usize::MAX - self.used,
            Property::Min => self.used,
        };
        self.used = self.used + 1;
        self.state.push(OrdElem::from(e, o));
        let ghost prop = self.prop;
        let ghost used1 = self.used;
        let ghost len1 = self.state@.len();
        let ghost m1 = self.state@.to_multiset();
        let mut n: usize = self.state.len() - 1;
        proof {
            broadcast use vstd::seq_lib::group_to_multiset_ensures;

            let s0 = old(self)@;
            let ne = OrdElem { elem: e, order: next_order(prop, old(self).inserted()) };
            assert(self.state@ == s0.push(ne));
            assert(m1 == s0.to_multiset().insert(ne));
            assert forall|i: int| 0 <= i < self.state@.len() implies order_used(
                prop,
                used1,
                (#[trigger] self.state@[i]).order,
            ) by {
                if i < s0.len() {
                    assert(order_used(prop, old(self).inserted(), s0[i].order));
                }
            }
            assert forall|i: int, j: int| 0 <= i < j < self.state@.len() implies (
            #[trigger] self.state@[i]).order != (#[trigger] self.state@[j]).order by {
                if j < s0.len() {
                    assert(s0[i].order != s0[j].order);
                } else {
                    assert(order_used(prop, old(self).inserted(), s0[i].order));
                }
            }
            assert forall|i: int|
                1 <= i < self.state@.len() && i != n as int implies above(
                prop,
                self.state@[parent_index(i)],
                #[trigger] self.state@[i],
            ) by {
                assert(0 <= parent_index(i) < i);
                assert(above(prop, s0[parent_index(i)], s0[i]));
            }
            assert(sift_up_inv(prop, self.state@, n as int));
        }
        loop
            invariant
                n < len1,
                self.state@.len() == len1,
                self.prop == prop,
                self.used == used1,
                self.state@.to_multiset() == m1,
                orders_distinct(self.state@),
                orders_issued(prop, used1, self.state@),
                sift_up_inv(prop, self.state@, n as int),
            ensures
                self.state@.len() == len1,
                self.prop == prop,
                self.used == used1,
                self.state@.to_multiset() == m1,
                orders_distinct(self.state@),
                orders_issued(prop, used1, self.state@),
                heap_ordered(prop, self.state@),
            decreases n,
        {
            match self.invalid_parent(n) {
                None => {
                    proof {
                        assert forall|i: int| 1 <= i < self.state@.len() implies above(
                            prop,
                            self.state@[parent_index(i)],
                            #[trigger] self.state@[i],
                        ) by {
                            if i != n as int {
                                assert(above(prop, self.state@[parent_index(i)], self.state@[i]));
                            }
                        }
                    }
                    break ;
                },
                Some(p) => {
                    proof {
                        lemma_sift_up_step(prop, self.state@, n as int);
                        lemma_swap_preserves_multiset(self.state@, p as int, n as int);
                        lemma_swap_preserves_distinct(self.state@, p as int, n as int);
                    }
                    let ghost s = self.state@;
                    swap_entries(&mut self.state, p, n);
                    proof {
                        assert(self.state@ == s.update(p as int, s[n as int]).update(
                            n as int,
                            s[p as int],
                        ));
                        assert forall|i: int| 0 <= i < self.state@.len() implies order_used(
                            prop,
                            used1,
                            (#[trigger] self.state@[i]).order,
                        ) by {
                            assert(order_used(prop, used1, s[i].order));
                            if i == p as int {
                                assert(order_used(prop, used1, s[n as int].order));
                            }
                        }
                    }
                    n = p;
                },
            }
        }
    }

    /// Removes and returns the top element, or `None` when the heap is
    /// empty. The last element of storage moves into the vacated root slot —
    /// which keeps the tree complete — and sifts down until no child
    /// violates order against it.
    pub fn pop(&mut self) -> (r: Option<KVPair<V>>)
        requires
            old(self).wf(),
        ensures
            final(self).wf(),
            final(self).orientation() == old(self).orientation(),
            final(self).inserted() == old(self).inserted(),
            old(self)@.len() == 0 ==> r is None && final(self)@ == old(self)@,
            old(self)@.len() > 0 ==> {
                &&& r == Some(old(self)@[0].elem)
                &&& final(self)@.len() == old(self)@.len() - 1
                &&& final(self)@.to_multiset() == old(self)@.to_multiset().remove(old(self)@[0])
                &&& forall|i: int|
                    0 <= i < old(self)@.len() ==> above_eq(
                        old(self).orientation(),
                        old(self)@[0],
                        #[trigger] old(self)@[i],
                    )
            },
    {
        broadcast use vstd::seq_lib::group_to_multiset_ensures;
        broadcast use vstd::multiset::group_multiset_axioms;

        if self.state.len() == 0 {
            return None;
        }
        proof {
            assert forall|i: int| 0 <= i < self@.len() implies above_eq(
                self.orientation(),
                self@[0],
                #[trigger] self@[i],
            ) by {
                lemma_root_dominates(self.prop, self.state@, i);
            }
        }
        let ghost s0 = self.state@;
        let e = self.state.swap_remove(0);
        let ghost prop = self.prop;
        let ghost used1 = self.used;
        let ghost len1 = self.state@.len();
        let ghost m1 = self.state@.to_multiset();
        proof {
            let u = s0.update(0, s0.last());
            assert(self.state@ == u.drop_last());
            assert(u.drop_last() =~= u.remove(u.len() - 1));
            assert(u[u.len() - 1] == s0.last());
            assert(s0.contains(s0[0]));
            assert(m1 =~= s0.to_multiset().remove(s0[0]));
            assert forall|i: int, j: int| 0 <= i < j < self.state@.len() implies (
            #[trigger] self.state@[i]).order != (#[trigger] self.state@[j]).order by {
                let i0: int = if i == 0 {
                    s0.len() - 1
                } else {
                    i
                };
                assert(self.state@[i] == s0[i0] && self.state@[j] == s0[j]);
                if i0 < j {
                    assert(s0[i0].order != s0[j].order);
                } else {
                    assert(s0[j].order != s0[i0].order);
                }
            }
            assert forall|i: int| 0 <= i < self.state@.len() implies order_used(
                prop,
                used1,
                (#[trigger] self.state@[i]).order,
            ) by {
                let i0: int = if i == 0 {
                    s0.len() - 1
                } else {
                    i
                };
                assert(self.state@[i] == s0[i0]);
                assert(order_used(prop, used1, s0[i0].order));
            }
            assert forall|i: int|
                1 <= i < self.state@.len() && parent_index(i) != 0 implies above(
                prop,
                self.state@[parent_index(i)],
                #[trigger] self.state@[i],
            ) by {
                assert(1 <= parent_index(i) < i);
                assert(self.state@[i] == s0[i] && self.state@[parent_index(i)] == s0[parent_index(
                    i,
                )]);
                assert(above(prop, s0[parent_index(i)], s0[i]));
            }
        }
        if self.state.len() > 0 {
            let mut n: usize = 0;
            loop
                invariant
                    n < len1,
                    self.state@.len() == len1,
                    self.prop == prop,
                    self.used == used1,
                    self.state@.to_multiset() == m1,
                    orders_distinct(self.state@),
                    orders_issued(prop, used1, self.state@),
                    sift_down_inv(prop, self.state@, n as int),
                ensures
                    self.state@.len() == len1,
                    self.prop == prop,
                    self.used == used1,
                    self.state@.to_multiset() == m1,
                    orders_distinct(self.state@),
                    orders_issued(prop, used1, self.state@),
                    heap_ordered(prop, self.state@),
                decreases len1 - n,
            {
                match self.invalid_child(n) {
                    None => {
                        proof {
                            assert forall|i: int| 1 <= i < self.state@.len() implies above(
                                prop,
                                self.state@[parent_index(i)],
                                #[trigger] self.state@[i],
                            ) by {
                                if parent_index(i) != n as int {
                                    assert(above(
                                        prop,
                                        self.state@[parent_index(i)],
                                        self.state@[i],
                                    ));
                                } else {
                                    assert(self@[i] == self.state@[i]);
                                    assert(above(prop, self@[n as int], self@[i]));
                                }
                            }
                        }
                        break ;
                    },
                    Some(c) => {
                        proof {
                            lemma_sift_down_step(prop, self.state@, n as int, c as int);
                            lemma_swap_preserves_multiset(self.state@, n as int, c as int);
                            lemma_swap_preserves_distinct(self.state@, n as int, c as int);
                        }
                        let ghost s = self.state@;
                        swap_entries(&mut self.state, n, c);
                        proof {
                            assert(self.state@ == s.update(n as int, s[c as int]).update(
                                c as int,
                                s[n as int],
                            ));
                            assert forall|i: int| 0 <= i < self.state@.len() implies order_used(
                                prop,
                                used1,
                                (#[trigger] self.state@[i]).order,
                            ) by {
                                assert(order_used(prop, used1, s[i].order));
                                if i == n as int {
                                    assert(order_used(prop, used1, s[c as int].order));
                                }
                            }
                        }
                        n = c;
                    },
                }
            }
        }
        Some(e.consume())
    }
}

/// Whether order value `a` was handed out before order value `b` by a heap
/// of orientation `prop`: a max-heap counts down, a min-heap counts up.
pub open spec fn issued_before(prop: Property, a: usize, b: usize) -> bool {
    match prop {
        Property::Max => a > b,
        Property::Min => a < b,
    }
}

/// Law: the counter hands out order values in issue order — the value of the
/// earlier insertion precedes, in the `issued_before` sense, the value of the
/// later one, whatever the orientation.
pub proof fn lemma_next_order_monotone(prop: Property, a: usize, b: usize)
    requires
        a < b,
    ensures
        issued_before(prop, next_order(prop, a), next_order(prop, b)),
{
}

/// Law (stability): among the elements that share the root's key, the root
/// carries the earliest-issued order value; as the root is what pop and peek
/// hand out, elements of equal key leave the heap in insertion order,
/// whatever the orientation.
pub proof fn lemma_top_earliest<V>(prop: Property, s: Seq<OrdElem<V>>, i: int)
    requires
        heap_ordered(prop, s),
        orders_distinct(s),
        0 < i < s.len(),
        s[i].elem.key == s[0].elem.key,
    ensures
        issued_before(prop, s[0].order, s[i].order),
{
    lemma_root_dominates(prop, s, i);
    assert(s[0].order != s[i].order);
}

/// Law (extraction order): across one pop — which hands out the root of a
/// heap-ordered storage `s1` and leaves the storage `s2`, one occurrence of
/// that root removed — the next element handed out never ranks above the
/// previous one. A run of pops from a max-heap is therefore non-increasing,
/// and from a min-heap non-decreasing, under the ranked order.
pub proof fn lemma_pop_monotone<V>(prop: Property, s1: Seq<OrdElem<V>>, s2: Seq<OrdElem<V>>)
    requires
        heap_ordered(prop, s1),
        s1.len() > 0,
        s2.len() > 0,
        s2.to_multiset() == s1.to_multiset().remove(s1[0]),
    ensures
        above_eq(prop, s1[0], s2[0]),
{
    broadcast use vstd::seq_lib::group_to_multiset_ensures;
    broadcast use vstd::multiset::group_multiset_axioms;

    let x = s2[0];
    assert(s2.contains(x));
    assert(s2.to_multiset().count(x) > 0);
    assert(Multiset::singleton(s1[0]).count(x) <= 1) by {
        if x != s1[0] {
            assert(Multiset::singleton(s1[0]).count(x) == 0);
        }
    }
    assert(s1.to_multiset().count(x) > 0);
    assert(s1.contains(x));
    let i = choose|i: int| 0 <= i < s1.len() && s1[i] == s2[0];
    lemma_root_dominates(prop, s1, i);
}

impl<V> Countable for BinaryHeap<V> {
    open spec fn count(&self) -> nat {
        self@.len()
    }

    fn len(&self) -> (r: usize) {
        self.state.len()
    }
}

impl<V> Peekable<KVPair<V>> for BinaryHeap<V> {
    open spec fn top(&self) -> Option<KVPair<V>> {
        if self@.len() == 0 {
            None
        } else {
            Some(self@[0].elem)
        }
    }

    fn peek(&self) -> (r: Option<&KVPair<V>>) {
        if self.state.len() == 0 {
            None
        } else {
            Some(self.state[0].elem())
        }
    }
}

impl<V> Heap<KVPair<V>> for BinaryHeap<V> {
    open spec fn inv(&self) -> bool {
        self.wf()
    }

    open spec fn can_insert(&self) -> bool {
        self.inserted() < usize::MAX
    }

    fn insert(&mut self, e: KVPair<V>) {
        self.insert(e)
    }

    fn pop(&mut self) -> (r: Option<KVPair<V>>) {
        self.pop()
    }
}

impl<V> PriorityQueue<KVPair<V>> for BinaryHeap<V> {
    open spec fn pq_inv(&self) -> bool {
        self.wf()
    }

    open spec fn can_enqueue(&self) -> bool {
        self.inserted() < usize::MAX
    }

    fn enqueue(&mut self, e: KVPair<V>) {
        self.insert(e)
    }

    fn dequeue(&mut self) -> (r: Option<KVPair<V>>) {
        self.pop()
    }
}

} // verus!
