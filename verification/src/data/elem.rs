//! elem provides element types to put in data structures.

use vstd::prelude::*;

verus! {

/// KVPair holds a key and a value. The key is what every order in this
/// library compares; the value rides along untouched.
pub struct KVPair<V> {
    pub key: usize,
    pub val: V,
}

impl<V> KVPair<V> {
    pub fn from(k: usize, v: V) -> (r: Self)
        ensures
            r.key == k,
            r.val == v,
    {
        KVPair { key: k, val: v }
    }

    pub fn consume(self) -> (r: (usize, V))
        ensures
            r.0 == self.key,
            r.1 == self.val,
    {
        (self.key, self.val)
    }
}

/// OrdElem holds an ordinal element, and an order value: the sequence number
/// its heap assigned on insertion. The element's key is compared first; on
/// equal keys the order value decides.
pub struct OrdElem<V> {
    pub elem: KVPair<V>,
    pub order: usize,
}

/// The strict total order on ranked elements: by key, then by order value.
/// It is total on any set of elements whose order values are pairwise
/// distinct, as a heap's always are.
pub open spec fn ranked_below<V>(a: OrdElem<V>, b: OrdElem<V>) -> bool {
    a.elem.key < b.elem.key || (a.elem.key == b.elem.key && a.order < b.order)
}

impl<V> OrdElem<V> {
    pub fn from(e: KVPair<V>, o: usize) -> (r: Self)
        ensures
            r.elem == e,
            r.order == o,
    {
        OrdElem { elem: e, order: o }
    }

    pub fn elem(&self) -> (r: &KVPair<V>)
        ensures
            *r == self.elem,
    {
        &self.elem
    }

    pub fn consume(self) -> (r: KVPair<V>)
        ensures
            r == self.elem,
    {
        self.elem
    }

    /// Whether `self` sits strictly below `other` in the ranked order.
    pub fn below(&self, other: &OrdElem<V>) -> (r: bool)
        ensures
            r == ranked_below(*self, *other),
    {
        self.elem.key < other.elem.key || (self.elem.key == other.elem.key && self.order
            < other.order)
    }
}

} // verus!
