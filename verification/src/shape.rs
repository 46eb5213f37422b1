//! The tree that a store holds below a key, unfolded level by level, and
//! what an insertion does to it.

use crate::model::{
    holds_below, keeps, lookup, next_key, pair_digest, part_ways, path_of, rebuilt, rebuilt_pair,
    recorded, resolves, side, sound, spares, with_side, LEVELS,
};
use crate::node::{child_key, empty_pair, NodeView, PairView};
use crate::store::StoreView;
use vstd::prelude::*;

verus! {

/// The tree below a stored pair: its two children and, under each, the
/// tree that the store holds below that child's key.
pub enum Shape {
    /// Below the last level there is nothing to unfold.
    Tip,
    /// The left child, what is below it, the right child, what is below it.
    Fork(NodeView, Box<Shape>, NodeView, Box<Shape>),
}

impl Shape {
    /// The two children at the top.
    pub open spec fn pair(self) -> PairView {
        match self {
            Shape::Fork(left, _, right, _) => (left, right),
            Shape::Tip => empty_pair(),
        }
    }

    /// What is below the child that the bit selects.
    pub open spec fn below(self, right: bool) -> Shape {
        match self {
            Shape::Fork(_, under_left, _, under_right) => if right {
                *under_right
            } else {
                *under_left
            },
            Shape::Tip => Shape::Tip,
        }
    }

    /// This shape with the child that the bit selects, and what is below
    /// it, replaced.
    pub open spec fn with_below(self, right: bool, node: NodeView, under: Shape) -> Shape {
        match self {
            Shape::Fork(left, under_left, old_right, under_right) => if right {
                Shape::Fork(left, under_left, node, Box::new(under))
            } else {
                Shape::Fork(node, Box::new(under), old_right, under_right)
            },
            Shape::Tip => Shape::Tip,
        }
    }
}

/// What the store holds below `current`, from `depth` down to the leaves.
pub open spec fn unfolded(store: StoreView, current: Seq<u8>, depth: nat) -> Shape
    decreases LEVELS - depth,
{
    if depth >= LEVELS {
        Shape::Tip
    } else {
        let pair = lookup(store, current);
        Shape::Fork(
            pair.0,
            Box::new(unfolded(store, child_key(pair.0), depth + 1)),
            pair.1,
            Box::new(unfolded(store, child_key(pair.1), depth + 1)),
        )
    }
}

/// The node that refers to `shape` once `value` is planted in it: the
/// value's leaf below the last level, a branch to the shape's pair above.
pub open spec fn crown(shape: Shape, value: Seq<u8>, depth: nat) -> NodeView {
    if depth >= LEVELS {
        NodeView::Leaf(value)
    } else {
        NodeView::Branch(pair_digest(shape.pair()))
    }
}

/// `shape` with `value` planted along `path`: on every level the child on
/// the path is replaced by the node that refers to what is planted below.
pub open spec fn planted(shape: Shape, path: Seq<bool>, value: Seq<u8>, depth: nat) -> Shape
    decreases LEVELS - depth,
{
    if depth >= LEVELS {
        shape
    } else {
        let right = path[depth as int];
        let under = planted(shape.below(right), path, value, depth + 1);
        shape.with_below(right, crown(under, value, depth + 1), under)
    }
}

/// `shape` with `values` planted one after the other, each along the path
/// of its digest.
pub open spec fn planted_all(shape: Shape, values: Seq<Seq<u8>>) -> Shape
    decreases values.len(),
{
    if values.len() == 0 {
        shape
    } else {
        planted(planted_all(shape, values.drop_last()), path_of(values.last()), values.last(), 0)
    }
}

/// Whether the descent through `shape` along `path` passes through
/// branches only and ends at the leaf that holds `value`.
pub open spec fn shape_holds(shape: Shape, path: Seq<bool>, value: Seq<u8>, depth: nat) -> bool
    decreases LEVELS - depth,
{
    if depth >= LEVELS {
        false
    } else {
        let child = side(shape.pair(), path[depth as int]);
        if depth + 1 >= LEVELS {
            child == NodeView::Leaf(value)
        } else {
            child is Branch && shape_holds(
                shape.below(path[depth as int]),
                path,
                value,
                depth + 1,
            )
        }
    }
}

/// The pair that an insertion writes for a level is the top of the shape
/// with the value planted in it.
pub proof fn lemma_rebuilt_is_planted(
    store: StoreView,
    current: Seq<u8>,
    path: Seq<bool>,
    value: Seq<u8>,
    depth: nat,
)
    requires
        depth < LEVELS,
    ensures
        rebuilt_pair(store, current, path, value, depth) == planted(
            unfolded(store, current, depth),
            path,
            value,
            depth,
        ).pair(),
    decreases LEVELS - depth,
{
    let right = path[depth as int];
    let next = next_key(store, current, right);
    if depth + 1 < LEVELS {
        lemma_rebuilt_is_planted(store, next, path, value, depth + 1);
    }
    assert(unfolded(store, current, depth).below(right) == unfolded(store, next, depth + 1));
}

/// Membership read off the store is membership read off the shape.
pub proof fn lemma_holds_in_shape(
    store: StoreView,
    current: Seq<u8>,
    path: Seq<bool>,
    value: Seq<u8>,
    depth: nat,
)
    ensures
        holds_below(store, current, path, value, depth) == shape_holds(
            unfolded(store, current, depth),
            path,
            value,
            depth,
        ),
    decreases LEVELS - depth,
{
    if depth + 1 < LEVELS {
        let right = path[depth as int];
        lemma_holds_in_shape(store, next_key(store, current, right), path, value, depth + 1);
        assert(unfolded(store, current, depth).below(right) == unfolded(
            store,
            next_key(store, current, right),
            depth + 1,
        ));
    }
}

/// An insertion that replaces no stored pair leaves every stored pair as
/// it was.
pub proof fn lemma_spared_store_grows(
    store: StoreView,
    current: Seq<u8>,
    path: Seq<bool>,
    value: Seq<u8>,
    depth: nat,
)
    requires
        spares(store, current, path, value, depth),
    ensures
        store.submap_of(recorded(store, current, path, value, depth)),
    decreases LEVELS - depth,
{
    if depth < LEVELS {
        lemma_spared_store_grows(
            store,
            next_key(store, current, path[depth as int]),
            path,
            value,
            depth + 1,
        );
    }
}

/// A store that only grew holds below a stored key what it held before.
pub proof fn lemma_unfolded_in_grown_store(
    store: StoreView,
    grown: StoreView,
    current: Seq<u8>,
    depth: nat,
)
    requires
        sound(store),
        store.submap_of(grown),
        store.contains_key(current),
    ensures
        unfolded(grown, current, depth) == unfolded(store, current, depth),
    decreases LEVELS - depth,
{
    if depth < LEVELS {
        let pair = store[current];
        assert(grown.contains_key(current) && grown[current] == pair);
        assert(resolves(store, pair.0) && resolves(store, pair.1));
        lemma_unfolded_in_grown_store(store, grown, child_key(pair.0), depth + 1);
        lemma_unfolded_in_grown_store(store, grown, child_key(pair.1), depth + 1);
    }
}

/// What a clean insertion leaves below the key it wrote for a level is
/// the old shape with the value planted in it.
pub proof fn lemma_recorded_is_planted(
    store: StoreView,
    after: StoreView,
    current: Seq<u8>,
    path: Seq<bool>,
    value: Seq<u8>,
    depth: nat,
)
    requires
        depth < LEVELS,
        sound(store),
        store.submap_of(after),
        keeps(after, store, current, path, value, depth),
    ensures
        unfolded(
            after,
            pair_digest(rebuilt_pair(store, current, path, value, depth)),
            depth,
        ) == planted(unfolded(store, current, depth), path, value, depth),
    decreases LEVELS - depth,
{
    let right = path[depth as int];
    let next = next_key(store, current, right);
    let old_pair = lookup(store, current);
    let pair = rebuilt_pair(store, current, path, value, depth);
    let climbed = rebuilt(store, next, path, value, depth + 1);
    let sibling = side(old_pair, !right);
    assert(pair == with_side(old_pair, right, climbed));
    assert(lookup(after, pair_digest(pair)) == pair);
    assert(unfolded(store, current, depth).below(right) == unfolded(store, next, depth + 1));
    lemma_rebuilt_is_planted_crown(store, next, path, value, depth + 1);
    if depth + 1 < LEVELS {
        lemma_recorded_is_planted(store, after, next, path, value, depth + 1);
    }
    assert(unfolded(after, child_key(climbed), depth + 1) == planted(
        unfolded(store, next, depth + 1),
        path,
        value,
        depth + 1,
    ));
    if store.contains_key(current) {
        assert(resolves(store, store[current].0) && resolves(store, store[current].1));
    }
    assert(store.contains_key(child_key(sibling)));
    lemma_unfolded_in_grown_store(store, after, child_key(sibling), depth + 1);
}

/// The node that an insertion puts on the path at `depth` refers to the
/// shape with the value planted in it.
pub proof fn lemma_rebuilt_is_planted_crown(
    store: StoreView,
    current: Seq<u8>,
    path: Seq<bool>,
    value: Seq<u8>,
    depth: nat,
)
    ensures
        rebuilt(store, current, path, value, depth) == crown(
            planted(unfolded(store, current, depth), path, value, depth),
            value,
            depth,
        ),
{
    if depth < LEVELS {
        lemma_rebuilt_is_planted(store, current, path, value, depth);
    }
}

/// Planting two values whose paths part ways, or one value twice, gives
/// the same shape in either order.
pub proof fn lemma_planted_commutes(
    shape: Shape,
    first_path: Seq<bool>,
    first: Seq<u8>,
    second_path: Seq<bool>,
    second: Seq<u8>,
    depth: nat,
)
    requires
        part_ways(first_path, second_path, depth) || (first == second && first_path
            == second_path),
    ensures
        planted(planted(shape, first_path, first, depth), second_path, second, depth) == planted(
            planted(shape, second_path, second, depth),
            first_path,
            first,
            depth,
        ),
    decreases LEVELS - depth,
{
    if depth < LEVELS {
        let a = first_path[depth as int];
        let b = second_path[depth as int];
        let one = planted(shape, first_path, first, depth);
        let other = planted(shape, second_path, second, depth);
        let under_one = planted(shape.below(a), first_path, first, depth + 1);
        let under_other = planted(shape.below(b), second_path, second, depth + 1);
        assert(one == shape.with_below(a, crown(under_one, first, depth + 1), under_one));
        assert(other == shape.with_below(b, crown(under_other, second, depth + 1), under_other));
        let both = planted(one, second_path, second, depth);
        let both_swapped = planted(other, first_path, first, depth);
        let under_both = planted(one.below(b), second_path, second, depth + 1);
        let under_both_swapped = planted(other.below(a), first_path, first, depth + 1);
        assert(both == one.with_below(b, crown(under_both, second, depth + 1), under_both));
        assert(both_swapped == other.with_below(
            a,
            crown(under_both_swapped, first, depth + 1),
            under_both_swapped,
        ));
        if shape is Fork {
            if a == b {
                lemma_planted_commutes(
                    shape.below(a),
                    first_path,
                    first,
                    second_path,
                    second,
                    depth + 1,
                );
                assert(one.below(b) == under_one);
                assert(other.below(a) == under_other);
                assert(under_both == under_both_swapped);
                if depth + 1 >= LEVELS {
                    assert(!part_ways(first_path, second_path, depth + 1));
                    assert(first == second);
                }
            } else {
                assert(one.below(b) == shape.below(b));
                assert(other.below(a) == shape.below(a));
            }
        }
    }
}

/// Planting a value keeps in the shape every value whose path parts ways
/// with the planted one's.
pub proof fn lemma_planted_keeps_others(
    shape: Shape,
    path: Seq<bool>,
    value: Seq<u8>,
    other_path: Seq<bool>,
    other: Seq<u8>,
    depth: nat,
)
    requires
        part_ways(other_path, path, depth),
        shape_holds(shape, other_path, other, depth),
    ensures
        shape_holds(planted(shape, path, value, depth), other_path, other, depth),
    decreases LEVELS - depth,
{
    if path[depth as int] == other_path[depth as int] {
        lemma_planted_keeps_others(
            shape.below(path[depth as int]),
            path,
            value,
            other_path,
            other,
            depth + 1,
        );
    }
}

} // verus!
