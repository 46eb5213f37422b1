//! The sparse Merkle tree itself.

use crate::laws::lemma_insert_keeps_valid;
use crate::model::{lookup, pair_digest, rebuilt, recorded, TreeView, LEVELS};
use crate::node::{same_digest, serialized, Node};
use crate::path::{bit_at, bit_seq};
use crate::store::NodeStore;
use bit_vec::BitVec;
use vstd::prelude::*;

pub use crate::digest::hash;
pub use crate::node::_extract_key;
pub use crate::path::to_bitvec;

verus! {

/// An append-only set of byte strings behind one root digest.
pub struct Tree {
    root: [u8; 32],
    size: u32,
    map: NodeStore,
}

impl View for Tree {
    type V = TreeView;

    closed spec fn view(&self) -> TreeView {
        TreeView { root: self.root@, size: self.size as nat, nodes: self.map@ }
    }
}

/// The key of a pair: the digest of its children's bytes.
fn pair_key(left: &Node, right: &Node) -> (key: [u8; 32])
    ensures
        key@ == pair_digest((left@, right@)),
{
    let mut bytes: Vec<u8> = Vec::new();
    bytes.extend_from_slice(left.as_bytes());
    bytes.extend_from_slice(right.as_bytes());
    assert(bytes@ =~= serialized(left@) + serialized(right@));
    hash(bytes.as_slice())
}

impl Tree {
    /// The empty tree.
    pub fn new() -> (tree: Tree)
        ensures
            tree@ == TreeView::empty(),
            tree@.valid(),
    {
        let mut tree = Tree { root: [0u8; 32], size: 0u32, map: NodeStore::new() };
        tree.map.put([0u8; 32], Node::placeholder(), Node::placeholder());
        assert(tree@.root =~= TreeView::empty().root);
        assert(tree@.nodes =~= TreeView::empty().nodes);
        tree
    }

    /// How many insertions changed the root.
    pub fn size(self: &Self) -> (size: u32)
        ensures
            size == self@.size,
    {
        self.size
    }

    /// The digest that commits to everything inserted.
    pub fn root(self: &Self) -> (root: [u8; 32])
        ensures
            root@ == self@.root,
    {
        self.root
    }

    /// The pair kept under `_key`, or two placeholder leaves where the
    /// store has none.
    pub fn _get_with_default(self: &Self, _key: &[u8; 32]) -> (pair: (Node, Node))
        ensures
            (pair.0@, pair.1@) == lookup(self@.nodes, _key@),
    {
        match self.map.get(_key) {
            Some(pair) => pair,
            None => (Node::placeholder(), Node::placeholder()),
        }
    }

    fn _insert(
        self: &mut Self,
        current_hash: &[u8; 32],
        _key: &BitVec,
        _val: &[u8],
        bit_index: &mut usize,
    ) -> (node: Node)
        requires
            bit_seq(*_key).len() >= LEVELS,
        ensures
            node@ == rebuilt(
                old(self)@.nodes,
                current_hash@,
                bit_seq(*_key),
                _val@,
                *old(bit_index) as nat,
            ),
            final(self)@.nodes == recorded(
                old(self)@.nodes,
                current_hash@,
                bit_seq(*_key),
                _val@,
                *old(bit_index) as nat,
            ),
            final(self)@.root == old(self)@.root,
            final(self)@.size == old(self)@.size,
            *final(bit_index) == if *old(bit_index) >= LEVELS {
                *old(bit_index)
            } else {
                LEVELS
            },
        decreases LEVELS - *old(bit_index),
    {
        if *bit_index >= LEVELS {
            return Node::leaf(_val);
        }
        let (mut left, mut right) = self._get_with_default(current_hash);

        match bit_at(_key, *bit_index) {
            false => {
                *bit_index += 1;
                left = self._insert(&_extract_key(&left), _key, _val, bit_index);
            },
            true => {
                *bit_index += 1;
                right = self._insert(&_extract_key(&right), _key, _val, bit_index);
            },
        }

        let new_hash = pair_key(&left, &right);
        self.map.put(new_hash, left, right);
        Node::Branch(new_hash)
    }

    /// Whether the tree holds a given value. Membership queries are not
    /// offered: the answer is always `false`.
    pub fn contain(self: &Self) -> (found: bool)
        ensures
            !found,
    {
        false
    }

    /// Inserts `val` and says whether the root moved.
    pub fn insert(self: &mut Self, val: &[u8]) -> (changed: bool)
        requires
            old(self)@.size < u32::MAX,
        ensures
            final(self)@ == old(self)@.inserted(val@),
            changed == (final(self)@.root != old(self)@.root),
            old(self)@.valid() ==> final(self)@.valid(),
    {
        proof {
            if old(self)@.valid() {
                lemma_insert_keeps_valid(old(self)@, val@);
            }
        }
        let digest = hash(val);
        let key_bits = to_bitvec(&digest);
        let root = self.root;
        let mut bit_index: usize = 0;
        let new_root = self._insert(&root, &key_bits, val, &mut bit_index);
        match new_root {
            Node::Branch(new_root_hash) => {
                if same_digest(&new_root_hash, &root) {
                    false
                } else {
                    self.root = new_root_hash;
                    self.size = self.size + 1;
                    true
                }
            },
            _ => false,
        }
    }
}

} // verus!
