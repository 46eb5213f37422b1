//! The mathematical model of the tree: what an insertion computes, stated
//! over maps and sequences.

use crate::digest::sha3_256;
use crate::node::{child_key, empty_pair, serialized, zero_digest, NodeView, PairView};
use crate::path::msb_first;
use crate::store::StoreView;
use vstd::prelude::*;

verus! {

/// The number of branch levels between the root and a value's leaf.
pub const LEVELS: usize = 255;

/// The digest under which a pair is stored: that of its two children's
/// bytes, the left child's first.
pub open spec fn pair_digest(pair: PairView) -> Seq<u8> {
    sha3_256(serialized(pair.0) + serialized(pair.1))
}

/// The pair found under `key`; a key that the store lacks stands for an
/// empty subtree.
pub open spec fn lookup(store: StoreView, key: Seq<u8>) -> PairView {
    if store.contains_key(key) {
        store[key]
    } else {
        empty_pair()
    }
}

/// The child that a path bit selects: the right one for a set bit.
pub open spec fn side(pair: PairView, right: bool) -> NodeView {
    if right {
        pair.1
    } else {
        pair.0
    }
}

/// `pair` with the child that the bit selects replaced by `node`.
pub open spec fn with_side(pair: PairView, right: bool, node: NodeView) -> PairView {
    if right {
        (pair.0, node)
    } else {
        (node, pair.1)
    }
}

/// The key under which the descent goes on below `current`.
pub open spec fn next_key(store: StoreView, current: Seq<u8>, right: bool) -> Seq<u8> {
    child_key(side(lookup(store, current), right))
}

/// The node that stands at `depth` on the path once `value` is inserted
/// below the pair kept under `current`: the value itself at the bottom, and
/// above it a branch to the pair whose child on the path was rebuilt.
pub open spec fn rebuilt(
    store: StoreView,
    current: Seq<u8>,
    path: Seq<bool>,
    value: Seq<u8>,
    depth: nat,
) -> NodeView
    decreases LEVELS - depth,
{
    if depth >= LEVELS {
        NodeView::Leaf(value)
    } else {
        NodeView::Branch(pair_digest(rebuilt_pair(store, current, path, value, depth)))
    }
}

/// The pair that the insertion stores for `depth`: the one kept under
/// `current`, with the child on the path rebuilt.
pub open spec fn rebuilt_pair(
    store: StoreView,
    current: Seq<u8>,
    path: Seq<bool>,
    value: Seq<u8>,
    depth: nat,
) -> PairView
    decreases LEVELS - depth, 0nat,
{
    if depth >= LEVELS {
        empty_pair()
    } else {
        let right = path[depth as int];
        with_side(
            lookup(store, current),
            right,
            rebuilt(store, next_key(store, current, right), path, value, depth + 1),
        )
    }
}

/// The store once the insertion has written its pairs, the deepest first.
pub open spec fn recorded(
    store: StoreView,
    current: Seq<u8>,
    path: Seq<bool>,
    value: Seq<u8>,
    depth: nat,
) -> StoreView
    decreases LEVELS - depth,
{
    if depth >= LEVELS {
        store
    } else {
        let pair = rebuilt_pair(store, current, path, value, depth);
        recorded(
            store,
            next_key(store, current, path[depth as int]),
            path,
            value,
            depth + 1,
        ).insert(pair_digest(pair), pair)
    }
}

/// Whether the store keeps a pair under `key` whose digest is `key`.
pub open spec fn bound(store: StoreView, key: Seq<u8>) -> bool {
    store.contains_key(key) && key == pair_digest(store[key])
}

/// Whether `node`, if it is a branch, refers to a pair that the store keeps
/// under the digest of that pair.
pub open spec fn resolves(store: StoreView, node: NodeView) -> bool {
    match node {
        NodeView::Branch(digest) => bound(store, digest),
        NodeView::Leaf(_) => true,
    }
}

/// The binding invariant of the store: the zero key is present; every key
/// is the digest of the pair kept under it, unless it is the zero key with
/// the placeholder pair; and every branch inside a stored pair refers to a
/// stored pair of that digest.
pub open spec fn sound(store: StoreView) -> bool {
    &&& store.contains_key(zero_digest())
    &&& forall|key: Seq<u8>| #[trigger]
        store.contains_key(key) ==> {
            &&& bound(store, key) || (key == zero_digest() && store[key] == empty_pair())
            &&& resolves(store, store[key].0)
            &&& resolves(store, store[key].1)
        }
}

/// Whether the descent from the pair under `current` along `path` passes
/// through branches only and ends, below the last level, at the leaf that
/// holds `value`.
pub open spec fn holds_below(
    store: StoreView,
    current: Seq<u8>,
    path: Seq<bool>,
    value: Seq<u8>,
    depth: nat,
) -> bool
    decreases LEVELS - depth,
{
    if depth >= LEVELS {
        false
    } else {
        let child = side(lookup(store, current), path[depth as int]);
        if depth + 1 >= LEVELS {
            child == NodeView::Leaf(value)
        } else {
            child is Branch && holds_below(store, child_key(child), path, value, depth + 1)
        }
    }
}

/// Whether every pair that the insertion writes from `depth` down is kept
/// in `after` under its digest.
pub open spec fn keeps(
    after: StoreView,
    store: StoreView,
    current: Seq<u8>,
    path: Seq<bool>,
    value: Seq<u8>,
    depth: nat,
) -> bool
    decreases LEVELS - depth,
{
    if depth >= LEVELS {
        true
    } else {
        let pair = rebuilt_pair(store, current, path, value, depth);
        &&& after.contains_key(pair_digest(pair))
        &&& after[pair_digest(pair)] == pair
        &&& keeps(
            after,
            store,
            next_key(store, current, path[depth as int]),
            path,
            value,
            depth + 1,
        )
    }
}

/// Whether every pair that the insertion writes from `depth` down goes
/// under a key that holds nothing in `store`, or that same pair.
pub open spec fn spares(
    store: StoreView,
    current: Seq<u8>,
    path: Seq<bool>,
    value: Seq<u8>,
    depth: nat,
) -> bool
    decreases LEVELS - depth,
{
    if depth >= LEVELS {
        true
    } else {
        let pair = rebuilt_pair(store, current, path, value, depth);
        &&& store.contains_key(pair_digest(pair)) ==> store[pair_digest(pair)] == pair
        &&& spares(store, next_key(store, current, path[depth as int]), path, value, depth + 1)
    }
}

/// Whether two paths part ways at `depth` or further down, above the
/// leaves.
pub open spec fn part_ways(first: Seq<bool>, second: Seq<bool>, depth: nat) -> bool
    decreases LEVELS - depth,
{
    depth < LEVELS && (first[depth as int] != second[depth as int] || part_ways(
        first,
        second,
        depth + 1,
    ))
}

/// The bit path of a value: the bits of its digest.
pub open spec fn path_of(value: Seq<u8>) -> Seq<bool> {
    msb_first(sha3_256(value))
}

/// Whether two values can stand in one tree: they are the same value, or
/// their paths part ways above the leaves.
pub open spec fn compatible(first: Seq<u8>, second: Seq<u8>) -> bool {
    first == second || part_ways(path_of(first), path_of(second), 0)
}

/// Whether `value` is compatible with each of `values`.
pub open spec fn fits_among(value: Seq<u8>, values: Seq<Seq<u8>>) -> bool {
    forall|i: int| 0 <= i < values.len() ==> compatible(value, #[trigger] values[i])
}

/// Whether the values of a run are compatible with one another.
pub open spec fn all_compatible(values: Seq<Seq<u8>>) -> bool {
    forall|i: int, j: int|
        0 <= i < values.len() && 0 <= j < values.len() ==> compatible(
            #[trigger] values[i],
            #[trigger] values[j],
        )
}

/// What a tree is in contracts.
pub struct TreeView {
    /// The digest that commits to everything inserted.
    pub root: Seq<u8>,
    /// How many insertions changed the root.
    pub size: nat,
    /// Every pair stored so far.
    pub nodes: StoreView,
}

impl TreeView {
    /// The tree nothing was inserted into.
    pub open spec fn empty() -> TreeView {
        TreeView { root: zero_digest(), size: 0, nodes: map![zero_digest() => empty_pair()] }
    }

    /// The invariant of a tree: its store is sound, and its root is the
    /// zero digest of the empty tree or the digest of a stored pair.
    pub open spec fn valid(self) -> bool {
        &&& sound(self.nodes)
        &&& bound(self.nodes, self.root) || (self.root == zero_digest() && self.nodes[self.root]
            == empty_pair())
    }

    /// Whether the tree holds `value`: the descent along the value's path
    /// leads through branches to a leaf with these bytes.
    pub open spec fn contains(self, value: Seq<u8>) -> bool {
        holds_below(self.nodes, self.root, path_of(value), value, 0)
    }

    /// Whether inserting `value` replaces no pair that the store holds:
    /// each pair it writes goes under a key that is new to the store or
    /// already holds that pair.
    pub open spec fn spared_by(self, value: Seq<u8>) -> bool {
        spares(self.nodes, self.root, path_of(value), value, 0)
    }

    /// Whether inserting `value` leaves every pair it writes in the store:
    /// none is replaced by a pair written higher up under the same digest.
    pub open spec fn keeps_path_of(self, value: Seq<u8>) -> bool {
        keeps(self.inserted(value).nodes, self.nodes, self.root, path_of(value), value, 0)
    }

    /// Whether inserting `value` overwrites nothing, neither what the
    /// store held nor what the insertion itself wrote.
    pub open spec fn clean(self, value: Seq<u8>) -> bool {
        self.spared_by(value) && self.keeps_path_of(value)
    }

    /// Whether inserting `first` and then `second` overwrites nothing.
    pub open spec fn clean_pair(self, first: Seq<u8>, second: Seq<u8>) -> bool {
        self.clean(first) && self.inserted(first).clean(second)
    }

    /// Whether the zero key still holds the placeholder pair.
    pub open spec fn pristine(self) -> bool {
        self.nodes.contains_key(zero_digest()) && self.nodes[zero_digest()] == empty_pair()
    }

    /// The tree once `values` are inserted, the first one first.
    pub open spec fn inserted_all(self, values: Seq<Seq<u8>>) -> TreeView
        decreases values.len(),
    {
        if values.len() == 0 {
            self
        } else {
            self.inserted_all(values.drop_last()).inserted(values.last())
        }
    }

    /// Whether inserting `values` one after the other overwrites nothing.
    pub open spec fn clean_run(self, values: Seq<Seq<u8>>) -> bool
        decreases values.len(),
    {
        values.len() == 0 || (self.clean_run(values.drop_last()) && self.inserted_all(
            values.drop_last(),
        ).clean(values.last()))
    }

    /// The root once `value` is inserted.
    pub open spec fn root_after(self, value: Seq<u8>) -> Seq<u8> {
        pair_digest(rebuilt_pair(self.nodes, self.root, path_of(value), value, 0))
    }

    /// The tree once `value` is inserted: the size counts the insertion
    /// only if the root moved.
    pub open spec fn inserted(self, value: Seq<u8>) -> TreeView {
        let root = self.root_after(value);
        TreeView {
            root,
            size: if root == self.root {
                self.size
            } else {
                self.size + 1
            },
            nodes: recorded(self.nodes, self.root, path_of(value), value, 0),
        }
    }
}

} // verus!
