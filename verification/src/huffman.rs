//! huffman folds weighted symbols into a prefix-free code tree by repeatedly
//! merging the two lightest subtrees on a min-oriented heap.

use crate::data::elem::KVPair;
use crate::data::elem::OrdElem;
use crate::data::heap::binary::next_order;
use crate::data::heap::BinaryHeap;
use crate::data::Countable;
use vstd::multiset::Multiset;
use vstd::prelude::*;
use vstd::string::StringExecFns;

verus! {

/// Node is one node of a code tree: a payload, and up to two children. A
/// node with an empty payload is an internal merge node; the symbols sit in
/// the nodes with non-empty payloads.
pub struct Node {
    pub val: String,
    pub left: Option<Box<Node>>,
    pub right: Option<Box<Node>>,
}

/// The code table of the tree `t` reached over the branch path `path`: one
/// pair per node with a non-empty payload, in pre-order — the payload, and
/// the path to it, with `0` standing for a left branch and `1` for a right
/// branch.
pub open spec fn spec_codes(t: Node, path: Seq<char>) -> Seq<(Seq<char>, Seq<char>)>
    decreases t,
{
    let own: Seq<(Seq<char>, Seq<char>)> = if t.val@.len() > 0 {
        seq![(t.val@, path)]
    } else {
        Seq::empty()
    };
    let lcs: Seq<(Seq<char>, Seq<char>)> = match t.left {
        Some(lc) => spec_codes(*lc, path.push('0')),
        None => Seq::empty(),
    };
    let rcs: Seq<(Seq<char>, Seq<char>)> = match t.right {
        Some(rc) => spec_codes(*rc, path.push('1')),
        None => Seq::empty(),
    };
    own + lcs + rcs
}

/// An executable code table, as the contracts see it.
pub open spec fn codes_view(v: Seq<(String, String)>) -> Seq<(Seq<char>, Seq<char>)> {
    v.map_values(|p: (String, String)| (p.0@, p.1@))
}

/// Whether `a` is a prefix of `b` — the whole of `b` counts as one.
pub open spec fn path_prefix(a: Seq<char>, b: Seq<char>) -> bool {
    a.len() <= b.len() && a == b.take(a.len() as int)
}

/// A tree is leaf-labelled when payloads sit only at the leaves: every node
/// with a non-empty payload has no children. The builder only makes such
/// trees, and only they give prefix-free codes.
pub open spec fn leaf_labelled(t: Node) -> bool
    decreases t,
{
    &&& (t.val@.len() > 0 ==> t.left is None && t.right is None)
    &&& (match t.left {
        Some(lc) => leaf_labelled(*lc),
        None => true,
    })
    &&& (match t.right {
        Some(rc) => leaf_labelled(*rc),
        None => true,
    })
}

/// Every code of a tree reached over `path` carries `path` as a prefix.
pub proof fn lemma_codes_extend(t: Node, path: Seq<char>, k: int)
    requires
        0 <= k < spec_codes(t, path).len(),
    ensures
        path_prefix(path, spec_codes(t, path)[k].1),
    decreases t,
{
    let own: Seq<(Seq<char>, Seq<char>)> = if t.val@.len() > 0 {
        seq![(t.val@, path)]
    } else {
        Seq::empty()
    };
    let lcs: Seq<(Seq<char>, Seq<char>)> = match t.left {
        Some(lc) => spec_codes(*lc, path.push('0')),
        None => Seq::empty(),
    };
    let rcs: Seq<(Seq<char>, Seq<char>)> = match t.right {
        Some(rc) => spec_codes(*rc, path.push('1')),
        None => Seq::empty(),
    };
    let cs = spec_codes(t, path);
    assert(cs == own + lcs + rcs);
    if k < own.len() {
        assert(cs[k].1 == path);
        assert(path.take(path.len() as int) =~= path);
    } else if k < own.len() + lcs.len() {
        let t0 = t.left->Some_0;
        lemma_codes_extend(*t0, path.push('0'), k - own.len());
        let c = lcs[k - own.len()];
        assert(cs[k] == c);
        assert(path_prefix(path.push('0'), c.1));
        assert(path =~= c.1.take(path.len() as int)) by {
            assert(path.push('0') == c.1.take(path.len() as int + 1));
        }
    } else {
        let t0 = t.right->Some_0;
        lemma_codes_extend(*t0, path.push('1'), k - own.len() - lcs.len());
        let c = rcs[k - own.len() - lcs.len()];
        assert(cs[k] == c);
        assert(path_prefix(path.push('1'), c.1));
        assert(path =~= c.1.take(path.len() as int)) by {
            assert(path.push('1') == c.1.take(path.len() as int + 1));
        }
    }
}

/// Law (prefix-free codes): in the code table of a leaf-labelled tree no
/// code is a prefix of another — in particular no two payloads receive the
/// same code string.
pub proof fn lemma_codes_prefix_free(t: Node, path: Seq<char>, i: int, j: int)
    requires
        leaf_labelled(t),
        0 <= i < spec_codes(t, path).len(),
        0 <= j < spec_codes(t, path).len(),
        i != j,
    ensures
        !path_prefix(spec_codes(t, path)[i].1, spec_codes(t, path)[j].1),
    decreases t,
{
    let own: Seq<(Seq<char>, Seq<char>)> = if t.val@.len() > 0 {
        seq![(t.val@, path)]
    } else {
        Seq::empty()
    };
    let lcs: Seq<(Seq<char>, Seq<char>)> = match t.left {
        Some(lc) => spec_codes(*lc, path.push('0')),
        None => Seq::empty(),
    };
    let rcs: Seq<(Seq<char>, Seq<char>)> = match t.right {
        Some(rc) => spec_codes(*rc, path.push('1')),
        None => Seq::empty(),
    };
    let cs = spec_codes(t, path);
    assert(cs == own + lcs + rcs);
    if t.val@.len() > 0 {
        // a labelled node is a leaf: its table has the one entry
        assert(cs.len() == 1);
    } else {
        if i < lcs.len() && j < lcs.len() {
            let t0 = t.left->Some_0;
            lemma_codes_prefix_free(*t0, path.push('0'), i, j);
            assert(cs[i] == lcs[i] && cs[j] == lcs[j]);
        } else if i >= lcs.len() && j >= lcs.len() {
            let t0 = t.right->Some_0;
            lemma_codes_prefix_free(*t0, path.push('1'), i - lcs.len(), j - lcs.len());
            assert(cs[i] == rcs[i - lcs.len()] && cs[j] == rcs[j - lcs.len()]);
        } else {
            let (a, b) = if i < lcs.len() {
                (i, j)
            } else {
                (j, i)
            };
            let ca = cs[a].1;
            let cb = cs[b].1;
            assert(cs[a] == lcs[a] && cs[b] == rcs[b - lcs.len()]);
            let t0 = t.left->Some_0;
            let t1 = t.right->Some_0;
            lemma_codes_extend(*t0, path.push('0'), a);
            lemma_codes_extend(*t1, path.push('1'), b - lcs.len());
            let n = path.len() as int;
            assert(ca[n] == '0') by {
                assert(path.push('0') == ca.take(n + 1));
                assert(ca.take(n + 1)[n] == ca[n]);
            }
            assert(cb[n] == '1') by {
                assert(path.push('1') == cb.take(n + 1));
                assert(cb.take(n + 1)[n] == cb[n]);
            }
            if path_prefix(ca, cb) {
                assert(ca[n] == cb.take(ca.len() as int)[n]);
                assert(false);
            }
            if path_prefix(cb, ca) {
                assert(cb[n] == ca.take(cb.len() as int)[n]);
                assert(false);
            }
            assert(!path_prefix(cs[i].1, cs[j].1));
        }
    }
}

impl Node {
    pub fn from(v: String) -> (r: Self)
        ensures
            r.val == v,
            r.left is None,
            r.right is None,
    {
        Node { val: v, left: None, right: None }
    }

    /// The code table of this tree: every payload in it, each with the path
    /// of branch choices that reaches it from here, on top of `path`.
    pub fn codes(&self, path: String) -> (r: Vec<(String, String)>)
        ensures
            codes_view(r@) == spec_codes(*self, path@),
        decreases *self,
    {
        let mut out: Vec<(String, String)> = Vec::new();
        if !self.val.as_str().is_empty() {
            out.push((self.val.clone(), path.clone()));
        }
        if let Some(lc) = &self.left {
            let mut lp = path.clone();
            lp.append("0");
            proof {
                reveal_strlit("0");
                assert(lp@ =~= path@.push('0'));
            }
            let mut lcodes = (&**lc).codes(lp);
            out.append(&mut lcodes);
        }
        if let Some(rc) = &self.right {
            let mut rp = path.clone();
            rp.append("1");
            proof {
                reveal_strlit("1");
                assert(rp@ =~= path@.push('1'));
            }
            let mut rcodes = (&**rc).codes(rp);
            out.append(&mut rcodes);
        }
        proof {
            assert(codes_view(out@) =~= spec_codes(*self, path@));
        }
        out
    }
}

/// Every tree held in the heap contents `m` is leaf-labelled.
pub open spec fn all_leaf_labelled(m: Multiset<OrdElem<Node>>) -> bool {
    forall|x: OrdElem<Node>| #[trigger] m.count(x) > 0 ==> leaf_labelled(x.elem.val)
}

/// Taking an element out of heap contents keeps every held tree
/// leaf-labelled.
proof fn lemma_labelled_remove(m: Multiset<OrdElem<Node>>, r: OrdElem<Node>)
    requires
        all_leaf_labelled(m),
    ensures
        all_leaf_labelled(m.remove(r)),
{
    broadcast use vstd::multiset::group_multiset_axioms;

    assert forall|x: OrdElem<Node>| #[trigger] m.remove(r).count(x) > 0 implies leaf_labelled(
        x.elem.val,
    ) by {
        assert(m.count(x) > 0);
    }
}

/// Putting a leaf-labelled tree into heap contents keeps every held tree
/// leaf-labelled.
proof fn lemma_labelled_insert(m: Multiset<OrdElem<Node>>, e: OrdElem<Node>)
    requires
        all_leaf_labelled(m),
        leaf_labelled(e.elem.val),
    ensures
        all_leaf_labelled(m.insert(e)),
{
    broadcast use vstd::multiset::group_multiset_axioms;

    assert forall|x: OrdElem<Node>| #[trigger] m.insert(e).count(x) > 0 implies leaf_labelled(
        x.elem.val,
    ) by {
        if x != e {
            assert(m.count(x) > 0);
        }
    }
}

/// A tree that heap contents hold is leaf-labelled when all of them are.
proof fn lemma_labelled_member(m: Multiset<OrdElem<Node>>, x: OrdElem<Node>)
    requires
        all_leaf_labelled(m),
        m.count(x) > 0,
    ensures
        leaf_labelled(x.elem.val),
{
}

/// When a storage of one element holds, as contents, one insertion into
/// empty contents, its root is that one element.
proof fn lemma_single_content<V>(s: Seq<OrdElem<V>>, w: OrdElem<V>)
    requires
        s.len() == 1,
        s.to_multiset() == Multiset::empty().insert(w),
    ensures
        s[0] == w,
{
    broadcast use vstd::seq_lib::group_to_multiset_ensures;
    broadcast use vstd::multiset::group_multiset_axioms;

    assert(s.contains(s[0]));
    assert(s.to_multiset().count(s[0]) > 0);
    if s[0] != w {
        assert(Multiset::singleton(w).count(s[0]) == 0);
    }
}

/// Folds the weighted symbols down to one code tree: all pairs go into a
/// min-oriented heap, and while more than one entry remains the two
/// lightest-by-weight entries — ties by insertion order — leave it and
/// re-enter as one internal node whose weight is their sum. The remaining
/// entry's tree is the result; `None` only on empty input. On leaf-labelled
/// input trees the result is leaf-labelled too, so its code table is
/// prefix-free.
///
/// The weights only order the merges and are not part of the result; a
/// merged weight saturates at the top of the range rather than wrap.
pub fn build(pairs: Vec<KVPair<Node>>) -> (r: Option<Node>)
    requires
        pairs@.len() <= usize::MAX / 2,
    ensures
        r is Some <==> pairs@.len() > 0,
        pairs@.len() == 1 ==> r == Some(pairs@[0].val),
        pairs@.len() >= 2 ==> match r {
            Some(root) => root.val@.len() == 0 && root.left is Some && root.right is Some,
            None => false,
        },
        (forall|i: int| 0 <= i < pairs@.len() ==> leaf_labelled((#[trigger] pairs@[i]).val))
            ==> match r {
            Some(root) => leaf_labelled(root),
            None => true,
        },
{
    let ghost pairs0 = pairs@;
    let ghost n0 = pairs@.len();
    let ghost all_ll = forall|i: int|
        0 <= i < pairs0.len() ==> leaf_labelled((#[trigger] pairs0[i]).val);
    if pairs.len() == 0 {
        return None;
    }
    let mut pq: BinaryHeap<Node> = BinaryHeap::min();
    let mut rest = pairs;
    proof {
        broadcast use vstd::seq_lib::group_to_multiset_ensures;
        broadcast use vstd::multiset::group_multiset_axioms;

        assert(pairs0.take(pairs0.len() as int) =~= pairs0);
        assert forall|x: OrdElem<Node>| #[trigger] pq@.to_multiset().count(x) > 0 implies
            leaf_labelled(x.elem.val) by {
            assert(pq@.to_multiset().len() == 0);
        }
    }
    while rest.len() > 0
        invariant
            pq.wf(),
            rest@.len() <= n0,
            n0 == pairs0.len(),
            n0 <= usize::MAX / 2,
            pq.inserted() == n0 - rest@.len(),
            pq@.len() == pq.inserted(),
            rest@ == pairs0.take(rest@.len() as int),
            all_ll == (forall|i: int|
                0 <= i < pairs0.len() ==> leaf_labelled((#[trigger] pairs0[i]).val)),
            all_ll ==> all_leaf_labelled(pq@.to_multiset()),
            n0 == 1 && rest@.len() == 0 ==> pq@.len() == 1 && pq@[0].elem == pairs0[0],
        decreases rest@.len(),
    {
        let ghost m_before = pq@.to_multiset();
        let p = rest.pop().unwrap();
        proof {
            let n1 = rest@.len() as int;
            assert(pairs0.take(n1 + 1)[n1] == pairs0[n1]);
            assert(p == pairs0[n1]);
            assert forall|k: int| 0 <= k < n1 implies rest@[k] == pairs0[k] by {
                assert(pairs0.take(n1 + 1)[k] == pairs0[k]);
            }
            assert(rest@ =~= pairs0.take(n1));
        }
        let ghost wrapped = OrdElem { elem: p, order: next_order(pq.orientation(), pq.inserted()) };
        pq.insert(p);
        proof {
            broadcast use vstd::seq_lib::group_to_multiset_ensures;
            broadcast use vstd::multiset::group_multiset_axioms;

            if all_ll {
                assert(leaf_labelled(p.val));
                lemma_labelled_insert(m_before, wrapped);
            }
            if n0 == 1 && rest@.len() == 0 {
                assert(m_before.len() == 0);
                vstd::multiset::lemma_multiset_empty_len(m_before);
                assert(pq@.to_multiset() == Multiset::empty().insert(wrapped));
                lemma_single_content(pq@, wrapped);
                assert(pq@[0].elem == pairs0[0]);
            }
        }
    }
    while pq.len() > 1
        invariant
            pq.wf(),
            1 <= pq@.len(),
            pq.inserted() as int + pq@.len() as int == 2 * (n0 as int),
            n0 <= usize::MAX / 2,
            all_ll ==> all_leaf_labelled(pq@.to_multiset()),
            n0 == 1 ==> pq@.len() == 1 && pq@[0].elem == pairs0[0],
            n0 >= 2 && pq@.len() == 1 ==> {
                &&& pq@[0].elem.val.val@.len() == 0
                &&& pq@[0].elem.val.left is Some
                &&& pq@[0].elem.val.right is Some
            },
        decreases pq@.len(),
    {
        let ghost m0 = pq@.to_multiset();
        let ghost h1 = pq@[0];
        proof {
            broadcast use vstd::seq_lib::group_to_multiset_ensures;

            assert(pq@.contains(h1));
            assert(m0.count(h1) > 0);
            if all_ll {
                lemma_labelled_member(m0, h1);
                lemma_labelled_remove(m0, h1);
            }
        }
        let p = pq.pop().unwrap();
        let ghost m1 = pq@.to_multiset();
        let ghost h2 = pq@[0];
        proof {
            broadcast use vstd::seq_lib::group_to_multiset_ensures;

            assert(pq@.contains(h2));
            assert(m1.count(h2) > 0);
            if all_ll {
                lemma_labelled_member(m1, h2);
                lemma_labelled_remove(m1, h2);
            }
        }
        let q = pq.pop().unwrap();
        let ghost m2 = pq@.to_multiset();
        let (pk, pv) = p.consume();
        let (qk, qv) = q.consume();
        let merged = Node {
            val: String::new(),
            left: Some(Box::new(pv)),
            right: Some(Box::new(qv)),
        };
        proof {
            if all_ll {
                assert(leaf_labelled(pv) && leaf_labelled(qv));
                assert(merged.val@.len() == 0);
                assert(leaf_labelled(merged));
            }
        }
        let e = KVPair::from(pk.saturating_add(qk), merged);
        let ghost wrapped = OrdElem { elem: e, order: next_order(pq.orientation(), pq.inserted()) };
        pq.insert(e);
        proof {
            broadcast use vstd::seq_lib::group_to_multiset_ensures;
            broadcast use vstd::multiset::group_multiset_axioms;

            if all_ll {
                lemma_labelled_insert(m2, wrapped);
            }
            if pq@.len() == 1 {
                assert(m2.len() == 0);
                vstd::multiset::lemma_multiset_empty_len(m2);
                assert(pq@.to_multiset() == Multiset::empty().insert(wrapped));
                lemma_single_content(pq@, wrapped);
                assert(pq@[0].elem == e);
                assert(e.val == merged);
            }
        }
    }
    let ghost mfin = pq@.to_multiset();
    let ghost hfin = pq@[0];
    proof {
        broadcast use vstd::seq_lib::group_to_multiset_ensures;

        assert(pq@.contains(hfin));
        assert(mfin.count(hfin) > 0);
        if all_ll {
            lemma_labelled_member(mfin, hfin);
        }
    }
    match pq.pop() {
        Some(kv) => Some(kv.consume().1),
        None => None,
    }
}

} // verus!

