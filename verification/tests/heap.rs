use heapq::data::abstr::PriorityQueue;
use heapq::data::elem::KVPair;
use heapq::data::elem::OrdElem;
use heapq::data::heap::BinaryHeap;
use heapq::data::Countable;
use heapq::data::Peekable;

#[test]
fn heap_binary_heap() {
    let pairs: &[(usize, i32)] = &[(1, 4), (1, 5), (3, 1), (2, 2), (2, 3), (0, 6)];
    let mut bh = BinaryHeap::max();

    for p in pairs {
        bh.insert(KVPair::from(p.0, p.1));
    }

    let mut extracted = 0;
    let last_value = 0;
    while let Some(kv) = bh.pop() {
        let (_, v) = kv.consume();
        assert!(v > last_value);
        extracted += 1;
    }
    assert_eq!(extracted, pairs.len());
}

fn test_heap<F>(mut h: BinaryHeap<usize>, ns: Vec<usize>, verify: F)
where
    F: Fn(usize, usize) -> bool,
{
    for n in ns.iter() {
        h.insert(KVPair::from(*n, *n));
    }

    let mut extracted = 0;
    let mut last_value = None;
    while let Some(kv) = h.pop() {
        let (_, v) = kv.consume();
        if let Some(prev) = last_value {
            assert!(verify(v, prev));
        }
        last_value = Some(v);
        extracted += 1;
    }
    assert_eq!(extracted, ns.len());
}

#[test]
fn mod_binary_heap() {
    test_heap(BinaryHeap::max(), vec![1, 2, 3, 4, 5], |cur, prev| cur <= prev);
    test_heap(BinaryHeap::min(), vec![1, 2, 3, 3, 4, 5], |cur, prev| cur >= prev);
}

#[test]
fn max_extraction_order() {
    let mut h = BinaryHeap::max();
    for k in [1usize, 2, 3, 4, 5] {
        h.insert(KVPair::from(k, ()));
    }
    let mut keys = Vec::new();
    while let Some(kv) = h.pop() {
        keys.push(kv.consume().0);
    }
    assert_eq!(keys, vec![5, 4, 3, 2, 1]);
}

#[test]
fn min_extraction_order_stable() {
    let mut h = BinaryHeap::min();
    for (k, v) in [(1usize, "one"), (2, "two"), (3, "first three"), (3, "second three"), (4, "four"), (5, "five")] {
        h.insert(KVPair::from(k, v));
    }
    let mut out = Vec::new();
    while let Some(kv) = h.pop() {
        out.push(kv.consume());
    }
    assert_eq!(
        out,
        vec![
            (1, "one"),
            (2, "two"),
            (3, "first three"),
            (3, "second three"),
            (4, "four"),
            (5, "five"),
        ]
    );
}

#[test]
fn stability_max() {
    let mut h = BinaryHeap::max();
    h.insert(KVPair::from(7, "a"));
    h.insert(KVPair::from(7, "b"));
    assert_eq!(h.pop().map(|kv| kv.consume().1), Some("a"));
    assert_eq!(h.pop().map(|kv| kv.consume().1), Some("b"));
}

#[test]
fn stability_min() {
    let mut h = BinaryHeap::min();
    h.insert(KVPair::from(7, "a"));
    h.insert(KVPair::from(7, "b"));
    assert_eq!(h.pop().map(|kv| kv.consume().1), Some("a"));
    assert_eq!(h.pop().map(|kv| kv.consume().1), Some("b"));
}

#[test]
fn peek_idempotent() {
    let mut h = BinaryHeap::max();
    h.insert(KVPair::from(2, "low"));
    h.insert(KVPair::from(9, "high"));
    let len_before = h.len();
    for _ in 0..4 {
        let top = h.peek().expect("peek on a non-empty heap");
        assert_eq!(top.key, 9);
        assert_eq!(top.val, "high");
    }
    assert_eq!(h.len(), len_before);
    assert_eq!(h.pop().map(|kv| kv.consume().1), Some("high"));
}

#[test]
fn round_trip_count() {
    let n = 7usize;
    let k = 3usize;
    let mut h = BinaryHeap::min();
    for i in 0..n {
        h.insert(KVPair::from(i, i));
        assert_eq!(h.len(), i + 1);
    }
    for j in 0..k {
        assert!(h.pop().is_some());
        assert_eq!(h.len(), n - j - 1);
    }
    assert_eq!(h.len(), n - k);
}

#[test]
fn empty_pop_peek() {
    let mut maxh: BinaryHeap<u8> = BinaryHeap::max();
    assert!(maxh.pop().is_none());
    assert!(maxh.peek().is_none());
    assert_eq!(maxh.len(), 0);
    let mut minh: BinaryHeap<u8> = BinaryHeap::min();
    assert!(minh.pop().is_none());
    assert!(minh.peek().is_none());
    assert_eq!(minh.len(), 0);
}

#[test]
fn queue_interface() {
    let mut q = BinaryHeap::min();
    q.enqueue(KVPair::from(3, "c"));
    q.enqueue(KVPair::from(1, "a"));
    q.enqueue(KVPair::from(2, "b"));
    assert_eq!(q.len(), 3);
    assert_eq!(q.dequeue().map(|kv| kv.consume()), Some((1, "a")));
    assert_eq!(q.dequeue().map(|kv| kv.consume()), Some((2, "b")));
    assert_eq!(q.dequeue().map(|kv| kv.consume()), Some((3, "c")));
    assert_eq!(q.dequeue().map(|kv| kv.consume()), None);
}

#[test]
fn structure_stays_heap_ordered() {
    let keys = [4usize, 1, 7, 7, 2, 9, 0, 5, 9, 3];
    for orientation in 0..2 {
        let mut h = if orientation == 0 { BinaryHeap::max() } else { BinaryHeap::min() };
        assert!(h.consistent());
        for (i, k) in keys.iter().enumerate() {
            h.insert(KVPair::from(*k, i));
            assert!(h.consistent());
        }
        while let Some(_) = h.pop() {
            assert!(h.consistent());
        }
        assert_eq!(h.len(), 0);
    }
}

#[test]
fn element_accessors() {
    let kv = KVPair::from(11usize, "payload");
    let wrapped = OrdElem::from(kv, 42);
    assert_eq!(wrapped.elem().key, 11);
    assert_eq!(wrapped.elem().val, "payload");
    let kv2 = wrapped.consume();
    let (k, v) = kv2.consume();
    assert_eq!(k, 11);
    assert_eq!(v, "payload");
}

#[test]
fn ranked_order_ties() {
    let a = OrdElem::from(KVPair::from(5usize, "a"), 1);
    let b = OrdElem::from(KVPair::from(5usize, "b"), 2);
    let c = OrdElem::from(KVPair::from(6usize, "c"), 0);
    assert!(a.below(&b));
    assert!(!b.below(&a));
    assert!(a.below(&c));
    assert!(!c.below(&a));
}
