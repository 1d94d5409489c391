use heapq::data::elem::KVPair;
use heapq::huffman::build;
use heapq::huffman::Node;

#[test]
fn build_empty() {
    assert!(build(Vec::new()).is_none());
}

#[test]
fn build_single() {
    let pairs = vec![KVPair::from(4, Node::from(String::from("only")))];
    let root = build(pairs).expect("one pair gives a tree");
    let codes = root.codes(String::new());
    assert_eq!(codes, vec![(String::from("only"), String::new())]);
}

#[test]
fn codes_single_leaf() {
    let leaf = Node::from(String::from("x"));
    assert_eq!(leaf.codes(String::new()), vec![(String::from("x"), String::new())]);
}

#[test]
fn codes_internal_node() {
    let tree = Node {
        val: String::new(),
        left: Some(Box::new(Node::from(String::from("l")))),
        right: Some(Box::new(Node::from(String::from("r")))),
    };
    assert_eq!(
        tree.codes(String::new()),
        vec![(String::from("l"), String::from("0")), (String::from("r"), String::from("1"))]
    );
}

#[test]
fn huffman_end_to_end() {
    let freqs: &[(usize, &str)] = &[(1, "e"), (2, "d"), (3, "c"), (4, "b"), (5, "a")];
    let mut pairs = Vec::new();
    for (f, s) in freqs {
        pairs.push(KVPair::from(*f, Node::from(String::from(*s))));
    }
    let root = build(pairs).expect("non-empty input gives a tree");
    let codes = root.codes(String::new());
    assert_eq!(codes.len(), freqs.len());

    let code_of = |sym: &str| -> String {
        codes
            .iter()
            .find(|(s, _)| s == sym)
            .map(|(_, c)| c.clone())
            .expect("every symbol gets a code")
    };

    // no two symbols share a code, and no code is a prefix of another
    for (i, (_, ci)) in codes.iter().enumerate() {
        for (j, (_, cj)) in codes.iter().enumerate() {
            if i != j {
                assert_ne!(ci, cj);
                assert!(!cj.starts_with(ci.as_str()));
            }
        }
    }

    // the most frequent symbol gets the shortest code, the least frequent a
    // code at least as long as any other
    let a_len = code_of("a").len();
    let e_len = code_of("e").len();
    for (_, c) in codes.iter() {
        assert!(a_len <= c.len());
        assert!(c.len() <= e_len);
    }

    // the frequency-weighted total length is the optimal one for these
    // frequencies
    let mut total = 0;
    for (f, s) in freqs {
        total += f * code_of(s).len();
    }
    assert_eq!(total, 33);
}
