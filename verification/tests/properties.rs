use merkle_tree::node::{same_digest, Node};
use merkle_tree::smt::{_extract_key, hash, to_bitvec, Tree};
use merkle_tree::store::NodeStore;

const ZERO: [u8; 32] = [0u8; 32];

fn leaf_bytes(node: &Node) -> Vec<u8> {
    match node {
        Node::Leaf(bytes) => bytes.to_vec(),
        Node::Branch(_) => panic!("expected a leaf"),
    }
}

fn branch_digest(node: &Node) -> [u8; 32] {
    match node {
        Node::Branch(digest) => *digest,
        Node::Leaf(_) => panic!("expected a branch"),
    }
}

fn pair_bytes(left: &Node, right: &Node) -> Vec<u8> {
    [left.as_bytes(), right.as_bytes()].concat()
}

/// The root of a tree that holds `value` alone, folded up from the leaf.
fn lone_root(value: &[u8]) -> [u8; 32] {
    let bits = to_bitvec(&hash(value));
    let mut current = value.to_vec();
    for depth in (0..255).rev() {
        let joined = if bits[depth] {
            [&ZERO[..], &current[..]].concat()
        } else {
            [&current[..], &ZERO[..]].concat()
        };
        current = hash(&joined).to_vec();
    }
    let mut root = [0u8; 32];
    root.copy_from_slice(&current);
    root
}

/// Walks from the root along the path of `value`, checks on every level
/// that the key is the digest of the pair kept under it, and returns the
/// node found below the last level.
fn descend_checked(tree: &Tree, value: &[u8]) -> Node {
    let bits = to_bitvec(&hash(value));
    let mut key = tree.root();
    let mut found = Node::placeholder();
    for depth in 0..255 {
        let (left, right) = tree._get_with_default(&key);
        assert_eq!(hash(&pair_bytes(&left, &right)), key);
        let child = if bits[depth] { right } else { left };
        if depth < 254 {
            key = branch_digest(&child);
        }
        found = child;
    }
    found
}

#[test]
fn empty_tree_has_zero_root_and_size() {
    let t = Tree::new();
    assert_eq!(t.root(), ZERO);
    assert_eq!(t.size(), 0);
}

#[test]
fn empty_tree_keeps_placeholder_pair_under_zero() {
    let t = Tree::new();
    let (left, right) = t._get_with_default(&ZERO);
    assert_eq!(leaf_bytes(&left), ZERO.to_vec());
    assert_eq!(leaf_bytes(&right), ZERO.to_vec());
}

#[test]
fn unknown_key_resolves_to_placeholder_pair() {
    let mut t = Tree::new();
    t.insert(b"present");
    let (left, right) = t._get_with_default(&[7u8; 32]);
    assert_eq!(leaf_bytes(&left), ZERO.to_vec());
    assert_eq!(leaf_bytes(&right), ZERO.to_vec());
}

#[test]
fn hash_of_empty_input() {
    assert_eq!(
        hash(b""),
        [
            0xa7, 0xff, 0xc6, 0xf8, 0xbf, 0x1e, 0xd7, 0x66, 0x51, 0xc1, 0x47, 0x56, 0xa0, 0x61,
            0xd6, 0x62, 0xf5, 0x80, 0xff, 0x4d, 0xe4, 0x3b, 0x49, 0xfa, 0x82, 0xd8, 0x0a, 0x4b,
            0x80, 0xf8, 0x43, 0x4a
        ]
    );
}

#[test]
fn hash_differs_from_its_input() {
    let input = [9u8; 32];
    assert_ne!(hash(&input), input);
    assert_eq!(hash(&input), hash(&[9u8; 32]));
}

#[test]
fn bits_come_most_significant_first() {
    let bits = to_bitvec(&[0b1010_0000, 0b0001_0010]);
    let expected = [
        true, false, true, false, false, false, false, false, false, false, false, true, false,
        false, true, false,
    ];
    assert_eq!(bits.len(), 16);
    for i in 0..16 {
        assert_eq!(bits[i], expected[i]);
    }
}

#[test]
fn bits_of_no_bytes() {
    assert_eq!(to_bitvec(&[]).len(), 0);
}

#[test]
fn digest_path_has_256_bits() {
    let digest = hash(b"some message 1");
    let bits = to_bitvec(&digest);
    assert_eq!(bits.len(), 256);
    for i in 0..256 {
        assert_eq!(bits[i], (digest[i / 8] >> (7 - i % 8)) & 1 == 1);
    }
}

#[test]
fn extract_key_of_branch_is_its_digest() {
    let digest = hash(b"k");
    assert_eq!(_extract_key(&Node::Branch(digest)), digest);
}

#[test]
fn extract_key_of_leaf_is_zero() {
    assert_eq!(_extract_key(&Node::leaf(b"anything")), ZERO);
    assert_eq!(_extract_key(&Node::placeholder()), ZERO);
}

#[test]
fn leaf_copies_its_bytes() {
    assert_eq!(leaf_bytes(&Node::leaf(b"abc")), b"abc".to_vec());
    assert_eq!(leaf_bytes(&Node::leaf(b"")), Vec::<u8>::new());
    assert_eq!(leaf_bytes(&Node::placeholder()), ZERO.to_vec());
}

#[test]
fn node_bytes_are_leaf_content_or_branch_digest() {
    let digest = hash(b"d");
    assert_eq!(Node::leaf(b"xyz").as_bytes(), b"xyz");
    assert_eq!(Node::Branch(digest).as_bytes(), &digest[..]);
}

#[test]
fn clone_keeps_the_node() {
    let digest = hash(b"d");
    assert_eq!(leaf_bytes(&Node::leaf(b"xyz").clone()), b"xyz".to_vec());
    assert_eq!(branch_digest(&Node::Branch(digest).clone()), digest);
}

#[test]
fn same_digest_compares_all_bytes() {
    let a = hash(b"a");
    let mut b = a;
    assert!(same_digest(&a, &b));
    b[31] ^= 1;
    assert!(!same_digest(&a, &b));
    b = a;
    b[0] ^= 0x80;
    assert!(!same_digest(&a, &b));
}

#[test]
fn store_returns_what_was_put() {
    let mut store = NodeStore::new();
    let key = hash(b"key");
    assert!(store.get(&key).is_none());
    store.put(key, Node::leaf(b"l"), Node::Branch(hash(b"r")));
    let (left, right) = store.get(&key).unwrap();
    assert_eq!(leaf_bytes(&left), b"l".to_vec());
    assert_eq!(branch_digest(&right), hash(b"r"));
    assert!(store.get(&hash(b"other")).is_none());
}

#[test]
fn store_put_replaces_the_pair_under_a_key() {
    let mut store = NodeStore::new();
    let key = hash(b"key");
    let other = hash(b"other");
    store.put(key, Node::leaf(b"1"), Node::leaf(b"2"));
    store.put(other, Node::leaf(b"5"), Node::leaf(b"6"));
    store.put(key, Node::leaf(b"3"), Node::leaf(b"4"));
    let (left, right) = store.get(&key).unwrap();
    assert_eq!(leaf_bytes(&left), b"3".to_vec());
    assert_eq!(leaf_bytes(&right), b"4".to_vec());
    let (left, right) = store.get(&other).unwrap();
    assert_eq!(leaf_bytes(&left), b"5".to_vec());
    assert_eq!(leaf_bytes(&right), b"6".to_vec());
}

#[test]
fn store_tells_keys_with_a_common_prefix_apart() {
    let mut store = NodeStore::new();
    let mut a = [1u8; 32];
    let mut b = [1u8; 32];
    a[31] = 2;
    b[31] = 3;
    store.put(a, Node::leaf(b"a"), Node::placeholder());
    store.put(b, Node::leaf(b"b"), Node::placeholder());
    assert_eq!(leaf_bytes(&store.get(&a).unwrap().0), b"a".to_vec());
    assert_eq!(leaf_bytes(&store.get(&b).unwrap().0), b"b".to_vec());
    assert!(store.get(&[1u8; 32]).is_none());
}

#[test]
fn contain_answers_false() {
    let mut t = Tree::new();
    assert!(!t.contain());
    t.insert(b"v");
    assert!(!t.contain());
}

#[test]
fn first_insert_reports_change_and_counts() {
    let mut t = Tree::new();
    assert!(t.insert(b"one"));
    assert_eq!(t.size(), 1);
    assert_ne!(t.root(), ZERO);
}

#[test]
fn insert_twice_in_a_row_is_idempotent() {
    let mut t = Tree::new();
    assert!(t.insert(b"twice"));
    let root = t.root();
    assert!(!t.insert(b"twice"));
    assert_eq!(t.root(), root);
    assert_eq!(t.size(), 1);
}

#[test]
fn new_value_moves_the_root_and_old_one_does_not() {
    let mut t = Tree::new();
    let mut roots = vec![t.root()];
    for value in [&b"a"[..], &b"b"[..], &b"c"[..], &b"d"[..]] {
        assert!(t.insert(value));
        assert!(!roots.contains(&t.root()));
        roots.push(t.root());
    }
    assert_eq!(t.size(), 4);
    let last = t.root();
    for value in [&b"a"[..], &b"b"[..], &b"c"[..], &b"d"[..]] {
        assert!(!t.insert(value));
        assert_eq!(t.root(), last);
    }
    assert_eq!(t.size(), 4);
}

#[test]
fn empty_value_can_be_inserted() {
    let mut t = Tree::new();
    assert!(t.insert(b""));
    assert_eq!(t.root(), lone_root(b""));
    assert!(!t.insert(b""));
    assert_eq!(t.size(), 1);
}

#[test]
fn lone_value_root_is_the_fold_over_255_levels() {
    for value in [&b"some message 1"[..], &b"x"[..], &[0u8; 32][..], &[0xffu8; 40][..]] {
        let mut t = Tree::new();
        assert!(t.insert(value));
        assert_eq!(t.root(), lone_root(value));
    }
}

#[test]
fn any_order_gives_the_same_root() {
    let values = [&b"A"[..], &b"B"[..], &b"C"[..]];
    let orders = [[0, 1, 2], [0, 2, 1], [1, 0, 2], [1, 2, 0], [2, 0, 1], [2, 1, 0]];
    let mut first = Tree::new();
    for i in orders[0] {
        first.insert(values[i]);
    }
    for order in orders {
        let mut t = Tree::new();
        for i in order {
            assert!(t.insert(values[i]));
        }
        assert_eq!(t.root(), first.root());
        assert_eq!(t.size(), 3);
    }
}

#[test]
fn batch_order_does_not_matter() {
    let values: Vec<Vec<u8>> = (0u8..8).map(|n| vec![n, n.wrapping_mul(37), 0xa5]).collect();
    let mut forward = Tree::new();
    for value in values.iter() {
        assert!(forward.insert(value));
    }
    let mut backward = Tree::new();
    for value in values.iter().rev() {
        assert!(backward.insert(value));
    }
    let mut rotated = Tree::new();
    for value in values[3..].iter().chain(values[..3].iter()) {
        assert!(rotated.insert(value));
    }
    assert_eq!(forward.root(), backward.root());
    assert_eq!(forward.root(), rotated.root());
    assert_eq!(forward.size(), 8);
    assert_eq!(backward.size(), 8);
}

#[test]
fn two_values_commute() {
    let mut ab = Tree::new();
    ab.insert(b"left");
    ab.insert(b"right");
    let mut ba = Tree::new();
    ba.insert(b"right");
    ba.insert(b"left");
    assert_eq!(ab.root(), ba.root());
}

#[test]
fn every_key_on_a_path_is_the_digest_of_its_pair() {
    let values = [&b"some message 1"[..], &b"some message 2"[..], &b"some message 3"[..], &b""[..]];
    let mut t = Tree::new();
    for (count, value) in values.iter().enumerate() {
        t.insert(value);
        for seen in &values[..=count] {
            assert_eq!(leaf_bytes(&descend_checked(&t, seen)), seen.to_vec());
        }
    }
}

#[test]
fn earlier_roots_still_resolve() {
    let mut t = Tree::new();
    t.insert(b"first");
    let root = t.root();
    let (left, right) = t._get_with_default(&root);
    let before = pair_bytes(&left, &right);
    t.insert(b"second");
    t.insert(b"third");
    assert_ne!(t.root(), root);
    let (left, right) = t._get_with_default(&root);
    assert_eq!(pair_bytes(&left, &right), before);
    assert_eq!(hash(&before), root);
}

#[test]
fn root_is_a_stored_key_after_insertion() {
    let mut t = Tree::new();
    t.insert(b"v");
    let (left, right) = t._get_with_default(&t.root());
    assert_eq!(hash(&pair_bytes(&left, &right)), t.root());
}
