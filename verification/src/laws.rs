//! What holds of every tree, proved over the model.

use crate::model::{
    bound, compatible, holds_below, keeps, lookup, next_key, pair_digest, part_ways, path_of,
    rebuilt, rebuilt_pair, recorded, resolves, side, sound, spares, with_side, TreeView, LEVELS,
};
use crate::shape::{
    lemma_holds_in_shape, lemma_planted_commutes, lemma_planted_keeps_others,
    lemma_rebuilt_is_planted, lemma_recorded_is_planted, lemma_spared_store_grows,
    lemma_unfolded_in_grown_store, planted, unfolded,
};
use crate::node::{child_key, empty_pair, zero_digest, NodeView};
use crate::store::StoreView;
use vstd::prelude::*;

verus! {

/// Writing the pairs of an insertion keeps a sound store sound: nothing
/// leaves the store, a key that was the digest of its pair still is, and
/// the pair written for `depth` is kept under its digest.
pub proof fn lemma_recorded_sound(
    store: StoreView,
    current: Seq<u8>,
    path: Seq<bool>,
    value: Seq<u8>,
    depth: nat,
)
    requires
        sound(store),
    ensures
        sound(recorded(store, current, path, value, depth)),
        forall|key: Seq<u8>|
            store.contains_key(key) ==> #[trigger] recorded(
                store,
                current,
                path,
                value,
                depth,
            ).contains_key(key),
        forall|key: Seq<u8>|
            bound(store, key) ==> #[trigger] bound(
                recorded(store, current, path, value, depth),
                key,
            ),
        depth < LEVELS ==> bound(
            recorded(store, current, path, value, depth),
            pair_digest(rebuilt_pair(store, current, path, value, depth)),
        ),
    decreases LEVELS - depth,
{
    if depth < LEVELS {
        let right = path[depth as int];
        let next = next_key(store, current, right);
        let below = recorded(store, next, path, value, depth + 1);
        let pair = rebuilt_pair(store, current, path, value, depth);
        let key = pair_digest(pair);
        let after = recorded(store, current, path, value, depth);
        lemma_recorded_sound(store, next, path, value, depth + 1);
        assert(after == below.insert(key, pair));
        assert forall|k: Seq<u8>| bound(below, k) implies #[trigger] bound(after, k) by {}
        assert forall|node: NodeView| resolves(below, node) implies #[trigger] resolves(
            after,
            node,
        ) by {}
        let old_pair = lookup(store, current);
        assert(resolves(store, old_pair.0) && resolves(store, old_pair.1));
        assert(resolves(below, side(old_pair, !right)));
        let climbed = rebuilt(store, next, path, value, depth + 1);
        assert(resolves(below, climbed));
        assert(pair == with_side(old_pair, right, climbed));
        assert(resolves(after, pair.0) && resolves(after, pair.1));
        assert forall|k: Seq<u8>| #[trigger] after.contains_key(k) implies ({
            &&& bound(after, k) || (k == zero_digest() && after[k] == empty_pair())
            &&& resolves(after, after[k].0)
            &&& resolves(after, after[k].1)
        }) by {
            if k != key {
                assert(below.contains_key(k));
            }
        }
    }
}

/// The binding invariant outlasts every insertion: in a valid tree, and
/// in the tree after any value is inserted, each stored key but the
/// placeholder's is the digest of its two children's bytes.
pub proof fn lemma_insert_keeps_valid(tree: TreeView, value: Seq<u8>)
    requires
        tree.valid(),
    ensures
        tree.inserted(value).valid(),
{
    lemma_recorded_sound(tree.nodes, tree.root, path_of(value), value, 0);
}

/// Where the descent already ends at the value's leaf, the insertion
/// rebuilds the pairs that are there and writes them back unchanged.
proof fn lemma_present_unchanged(
    store: StoreView,
    current: Seq<u8>,
    path: Seq<bool>,
    value: Seq<u8>,
    depth: nat,
)
    requires
        sound(store),
        bound(store, current),
        holds_below(store, current, path, value, depth),
    ensures
        rebuilt_pair(store, current, path, value, depth) == store[current],
        recorded(store, current, path, value, depth) == store,
    decreases LEVELS - depth,
{
    let right = path[depth as int];
    let child = side(store[current], right);
    let next = next_key(store, current, right);
    assert(resolves(store, store[current].0) && resolves(store, store[current].1));
    if depth + 1 < LEVELS {
        lemma_present_unchanged(store, next, path, value, depth + 1);
        assert(rebuilt(store, next, path, value, depth + 1) == child);
    }
    assert(rebuilt_pair(store, current, path, value, depth) == store[current]);
    assert(recorded(store, next, path, value, depth + 1) == store);
    assert(store.insert(current, store[current]) =~= store);
}

/// Inserting a value that the tree holds changes nothing: the root, the
/// size and the store stay as they are.
pub proof fn lemma_insert_present(tree: TreeView, value: Seq<u8>)
    requires
        tree.valid(),
        tree.contains(value),
    ensures
        tree.inserted(value) == tree,
{
    lemma_present_unchanged(tree.nodes, tree.root, path_of(value), value, 0);
}

/// Where the store keeps every pair that the insertion wrote, the descent
/// from the key written for `depth` ends at the value's leaf.
proof fn lemma_kept_holds(
    after: StoreView,
    store: StoreView,
    current: Seq<u8>,
    path: Seq<bool>,
    value: Seq<u8>,
    depth: nat,
)
    requires
        depth < LEVELS,
        keeps(after, store, current, path, value, depth),
    ensures
        holds_below(
            after,
            pair_digest(rebuilt_pair(store, current, path, value, depth)),
            path,
            value,
            depth,
        ),
    decreases LEVELS - depth,
{
    if depth + 1 < LEVELS {
        lemma_kept_holds(
            after,
            store,
            next_key(store, current, path[depth as int]),
            path,
            value,
            depth + 1,
        );
    }
}

/// After a value is inserted the tree holds it, provided the pairs that
/// the insertion wrote are all still in the store.
pub proof fn lemma_inserted_contains(tree: TreeView, value: Seq<u8>)
    requires
        tree.keeps_path_of(value),
    ensures
        tree.inserted(value).contains(value),
{
    lemma_kept_holds(
        tree.inserted(value).nodes,
        tree.nodes,
        tree.root,
        path_of(value),
        value,
        0,
    );
}

/// Inserting the same value twice in a row: the second insertion leaves
/// the tree as the first one made it, so the root does not move again.
/// This holds whenever the first insertion kept every pair it wrote.
pub proof fn lemma_insert_twice(tree: TreeView, value: Seq<u8>)
    requires
        tree.valid(),
        tree.keeps_path_of(value),
    ensures
        tree.inserted(value).inserted(value) == tree.inserted(value),
        tree.inserted(value).root_after(value) == tree.inserted(value).root,
{
    lemma_insert_keeps_valid(tree, value);
    lemma_inserted_contains(tree, value);
    lemma_insert_present(tree.inserted(value), value);
}

/// An insertion that replaces no stored pair and arrives at the key it
/// started from found the value's leaf at the end of its path.
proof fn lemma_same_key_holds(
    store: StoreView,
    current: Seq<u8>,
    path: Seq<bool>,
    value: Seq<u8>,
    depth: nat,
)
    requires
        depth < LEVELS,
        sound(store),
        store.contains_key(current),
        spares(store, current, path, value, depth),
        pair_digest(rebuilt_pair(store, current, path, value, depth)) == current,
    ensures
        holds_below(store, current, path, value, depth),
    decreases LEVELS - depth,
{
    let right = path[depth as int];
    let pair = rebuilt_pair(store, current, path, value, depth);
    assert(store[current] == pair);
    assert(resolves(store, store[current].0) && resolves(store, store[current].1));
    if depth + 1 < LEVELS {
        let next = next_key(store, current, right);
        assert(side(pair, right) == rebuilt(store, next, path, value, depth + 1));
        lemma_same_key_holds(store, next, path, value, depth + 1);
    }
}

/// Inserting a value that the tree does not hold moves the root, provided
/// the insertion replaces no pair that the store held.
pub proof fn lemma_insert_absent(tree: TreeView, value: Seq<u8>)
    requires
        tree.valid(),
        tree.spared_by(value),
        !tree.contains(value),
    ensures
        tree.inserted(value).root != tree.root,
        tree.inserted(value).size == tree.size + 1,
{
    if tree.root_after(value) == tree.root {
        lemma_same_key_holds(tree.nodes, tree.root, path_of(value), value, 0);
    }
}

/// The root after an insertion is the digest of the pair on top of the
/// tree's shape with the value planted in it.
pub proof fn lemma_root_after_is_planted(tree: TreeView, value: Seq<u8>)
    ensures
        tree.root_after(value) == pair_digest(
            planted(unfolded(tree.nodes, tree.root, 0), path_of(value), value, 0).pair(),
        ),
{
    lemma_rebuilt_is_planted(tree.nodes, tree.root, path_of(value), value, 0);
}

/// What the tree holds below its root after a clean insertion is what it
/// held before, with the value planted in it.
pub proof fn lemma_clean_insert_plants(tree: TreeView, value: Seq<u8>)
    requires
        tree.valid(),
        tree.clean(value),
    ensures
        unfolded(tree.inserted(value).nodes, tree.inserted(value).root, 0) == planted(
            unfolded(tree.nodes, tree.root, 0),
            path_of(value),
            value,
            0,
        ),
{
    let path = path_of(value);
    lemma_spared_store_grows(tree.nodes, tree.root, path, value, 0);
    lemma_recorded_is_planted(tree.nodes, tree.inserted(value).nodes, tree.root, path, value, 0);
}

/// A clean insertion keeps in the tree every value it held whose path
/// parts ways with the inserted one's.
pub proof fn lemma_insert_keeps_others(tree: TreeView, value: Seq<u8>, other: Seq<u8>)
    requires
        tree.valid(),
        tree.clean(value),
        tree.contains(other),
        part_ways(path_of(other), path_of(value), 0),
    ensures
        tree.inserted(value).contains(other),
{
    let after = tree.inserted(value);
    lemma_clean_insert_plants(tree, value);
    lemma_holds_in_shape(tree.nodes, tree.root, path_of(other), other, 0);
    lemma_holds_in_shape(after.nodes, after.root, path_of(other), other, 0);
    lemma_planted_keeps_others(
        unfolded(tree.nodes, tree.root, 0),
        path_of(value),
        value,
        path_of(other),
        other,
        0,
    );
}

/// Two values inserted in either order give the same root, provided each
/// of them alone goes in cleanly and they are compatible.
pub proof fn lemma_insert_commutes(tree: TreeView, first: Seq<u8>, second: Seq<u8>)
    requires
        tree.valid(),
        tree.clean(first),
        tree.clean(second),
        compatible(first, second),
    ensures
        tree.inserted(first).inserted(second).root == tree.inserted(second).inserted(first).root,
{
    let shape = unfolded(tree.nodes, tree.root, 0);
    lemma_clean_insert_plants(tree, first);
    lemma_clean_insert_plants(tree, second);
    lemma_root_after_is_planted(tree.inserted(first), second);
    lemma_root_after_is_planted(tree.inserted(second), first);
    lemma_planted_commutes(shape, path_of(first), first, path_of(second), second, 0);
}

/// The root after three clean insertions is the digest on top of the
/// tree's shape with the three values planted in that order.
proof fn lemma_three_planted(tree: TreeView, a: Seq<u8>, b: Seq<u8>, c: Seq<u8>)
    requires
        tree.valid(),
        tree.clean_pair(a, b),
    ensures
        tree.inserted(a).inserted(b).inserted(c).root == pair_digest(
            planted(
                planted(
                    planted(unfolded(tree.nodes, tree.root, 0), path_of(a), a, 0),
                    path_of(b),
                    b,
                    0,
                ),
                path_of(c),
                c,
                0,
            ).pair(),
        ),
{
    lemma_clean_insert_plants(tree, a);
    lemma_insert_keeps_valid(tree, a);
    lemma_clean_insert_plants(tree.inserted(a), b);
    lemma_root_after_is_planted(tree.inserted(a).inserted(b), c);
}

/// Order independence: three pairwise compatible values give the same
/// root in each of the six orders of insertion, provided the first two
/// insertions of each order are clean.
pub proof fn lemma_order_independent(tree: TreeView, a: Seq<u8>, b: Seq<u8>, c: Seq<u8>)
    requires
        tree.valid(),
        compatible(a, b),
        compatible(a, c),
        compatible(b, c),
        tree.clean_pair(a, b),
        tree.clean_pair(a, c),
        tree.clean_pair(b, a),
        tree.clean_pair(b, c),
        tree.clean_pair(c, a),
        tree.clean_pair(c, b),
    ensures
        tree.inserted(a).inserted(b).inserted(c).root == tree.inserted(a).inserted(c).inserted(
            b,
        ).root,
        tree.inserted(a).inserted(b).inserted(c).root == tree.inserted(b).inserted(a).inserted(
            c,
        ).root,
        tree.inserted(a).inserted(b).inserted(c).root == tree.inserted(b).inserted(c).inserted(
            a,
        ).root,
        tree.inserted(a).inserted(b).inserted(c).root == tree.inserted(c).inserted(a).inserted(
            b,
        ).root,
        tree.inserted(a).inserted(b).inserted(c).root == tree.inserted(c).inserted(b).inserted(
            a,
        ).root,
{
    let shape = unfolded(tree.nodes, tree.root, 0);
    let (pa, pb, pc) = (path_of(a), path_of(b), path_of(c));
    lemma_three_planted(tree, a, b, c);
    lemma_three_planted(tree, a, c, b);
    lemma_three_planted(tree, b, a, c);
    lemma_three_planted(tree, b, c, a);
    lemma_three_planted(tree, c, a, b);
    lemma_three_planted(tree, c, b, a);
    lemma_parting_is_mutual(pa, pb, 0);
    lemma_parting_is_mutual(pa, pc, 0);
    lemma_parting_is_mutual(pb, pc, 0);
    lemma_planted_commutes(shape, pa, a, pb, b, 0);
    lemma_planted_commutes(shape, pa, a, pc, c, 0);
    lemma_planted_commutes(shape, pb, b, pc, c, 0);
    lemma_planted_commutes(planted(shape, pa, a, 0), pb, b, pc, c, 0);
    lemma_planted_commutes(planted(shape, pb, b, 0), pa, a, pc, c, 0);
    lemma_planted_commutes(planted(shape, pc, c, 0), pa, a, pb, b, 0);
}

/// Two paths part ways from `depth` on exactly if they differ in a bit
/// between `depth` and the last level.
pub proof fn lemma_parting_is_differing(first: Seq<bool>, second: Seq<bool>, depth: nat)
    ensures
        part_ways(first, second, depth) <==> exists|i: int|
            depth <= i < LEVELS && first[i] != second[i],
    decreases LEVELS - depth,
{
    if depth < LEVELS {
        lemma_parting_is_differing(first, second, depth + 1);
        if part_ways(first, second, depth) {
            if first[depth as int] != second[depth as int] {
                assert(depth <= depth < LEVELS && first[depth as int] != second[depth as int]);
            } else {
                let i = choose|i: int| depth + 1 <= i < LEVELS && first[i] != second[i];
                assert(depth <= i < LEVELS && first[i] != second[i]);
            }
        }
        if exists|i: int| depth <= i < LEVELS && first[i] != second[i] {
            let i = choose|i: int| depth <= i < LEVELS && first[i] != second[i];
            if i != depth {
                assert(depth + 1 <= i < LEVELS && first[i] != second[i]);
            }
        }
    }
}

/// Two paths part ways whichever of them is named first.
pub proof fn lemma_parting_is_mutual(first: Seq<bool>, second: Seq<bool>, depth: nat)
    ensures
        part_ways(first, second, depth) == part_ways(second, first, depth),
    decreases LEVELS - depth,
{
    if depth < LEVELS {
        lemma_parting_is_mutual(first, second, depth + 1);
    }
}

/// An insertion removes no key from the store.
pub proof fn lemma_store_only_grows(
    store: StoreView,
    current: Seq<u8>,
    path: Seq<bool>,
    value: Seq<u8>,
    depth: nat,
)
    ensures
        forall|key: Seq<u8>| #[trigger]
            store.contains_key(key) ==> recorded(store, current, path, value, depth).contains_key(
                key,
            ),
    decreases LEVELS - depth,
{
    if depth < LEVELS {
        lemma_store_only_grows(
            store,
            next_key(store, current, path[depth as int]),
            path,
            value,
            depth + 1,
        );
    }
}

/// The store is append-only: every key stays in it, and an insertion that
/// replaces no pair leaves every pair under its key, the placeholder pair
/// among them.
pub proof fn lemma_insert_appends(tree: TreeView, value: Seq<u8>)
    ensures
        forall|key: Seq<u8>| #[trigger]
            tree.nodes.contains_key(key) ==> tree.inserted(value).nodes.contains_key(key),
        tree.spared_by(value) ==> tree.nodes.submap_of(tree.inserted(value).nodes),
        tree.spared_by(value) && tree.pristine() ==> tree.inserted(value).pristine(),
{
    lemma_store_only_grows(tree.nodes, tree.root, path_of(value), value, 0);
    if tree.spared_by(value) {
        lemma_spared_store_grows(tree.nodes, tree.root, path_of(value), value, 0);
        if tree.pristine() {
            assert(tree.nodes.dom().contains(zero_digest()));
        }
    }
}

/// Below the placeholder pair the descent finds no value but the one of
/// 32 zero bytes.
proof fn lemma_nothing_below_placeholder(
    store: StoreView,
    path: Seq<bool>,
    value: Seq<u8>,
    depth: nat,
)
    requires
        store.contains_key(zero_digest()),
        store[zero_digest()] == empty_pair(),
        value != zero_digest(),
    ensures
        !holds_below(store, zero_digest(), path, value, depth),
{
}

/// What the descent finds after a clean insertion on a path that parts
/// ways with the inserted value's, it found before.
proof fn lemma_held_after_was_held(
    store: StoreView,
    after: StoreView,
    current: Seq<u8>,
    path: Seq<bool>,
    value: Seq<u8>,
    other_path: Seq<bool>,
    other: Seq<u8>,
    depth: nat,
)
    requires
        sound(store),
        store[zero_digest()] == empty_pair(),
        store.submap_of(after),
        keeps(after, store, current, path, value, depth),
        part_ways(other_path, path, depth),
        other != zero_digest(),
        holds_below(
            after,
            pair_digest(rebuilt_pair(store, current, path, value, depth)),
            other_path,
            other,
            depth,
        ),
    ensures
        holds_below(store, current, other_path, other, depth),
    decreases LEVELS - depth,
{
    let right = path[depth as int];
    let turn = other_path[depth as int];
    let old_pair = lookup(store, current);
    let pair = rebuilt_pair(store, current, path, value, depth);
    let next = next_key(store, current, right);
    assert(pair == with_side(old_pair, right, rebuilt(store, next, path, value, depth + 1)));
    assert(lookup(after, pair_digest(pair)) == pair);
    if store.contains_key(current) {
        assert(resolves(store, store[current].0) && resolves(store, store[current].1));
    }
    if turn != right {
        let sibling = side(old_pair, turn);
        assert(side(pair, turn) == sibling);
        if depth + 1 < LEVELS {
            let key = child_key(sibling);
            assert(sibling is Branch);
            assert(store.contains_key(key));
            lemma_unfolded_in_grown_store(store, after, key, depth + 1);
            lemma_holds_in_shape(store, key, other_path, other, depth + 1);
            lemma_holds_in_shape(after, key, other_path, other, depth + 1);
        }
    } else {
        assert(part_ways(other_path, path, depth + 1));
        lemma_held_after_was_held(
            store,
            after,
            next,
            path,
            value,
            other_path,
            other,
            depth + 1,
        );
        if side(old_pair, right) is Leaf {
            lemma_nothing_below_placeholder(store, other_path, other, depth + 1);
        }
    }
}

/// A clean insertion brings no other value into the tree: what the tree
/// holds afterwards on a path that parts ways with the inserted value's,
/// it held before. The value of 32 zero bytes is left out, because a
/// placeholder leaf beside an inserted leaf cannot be told from it.
pub proof fn lemma_insert_adds_no_others(tree: TreeView, value: Seq<u8>, other: Seq<u8>)
    requires
        tree.valid(),
        tree.pristine(),
        tree.clean(value),
        part_ways(path_of(other), path_of(value), 0),
        other != zero_digest(),
        tree.inserted(value).contains(other),
    ensures
        tree.contains(other),
{
    lemma_spared_store_grows(tree.nodes, tree.root, path_of(value), value, 0);
    lemma_held_after_was_held(
        tree.nodes,
        tree.inserted(value).nodes,
        tree.root,
        path_of(value),
        value,
        path_of(other),
        other,
        0,
    );
}

/// The empty tree is valid.
pub proof fn lemma_empty_is_valid()
    ensures
        TreeView::empty().valid(),
{
}

} // verus!
