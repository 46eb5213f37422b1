//! What holds of a tree after a run of insertions.

use crate::laws::{
    lemma_clean_insert_plants, lemma_insert_absent, lemma_insert_adds_no_others,
    lemma_insert_appends, lemma_insert_keeps_others, lemma_insert_keeps_valid,
    lemma_insert_present, lemma_inserted_contains, lemma_root_after_is_planted,
};
use crate::model::{all_compatible, compatible, fits_among, path_of, TreeView};
use crate::node::zero_digest;
use crate::shape::{lemma_planted_commutes, planted, planted_all, unfolded, Shape};
use vstd::prelude::*;

verus! {

/// A run of insertions keeps a valid tree valid.
pub proof fn lemma_run_keeps_valid(tree: TreeView, values: Seq<Seq<u8>>)
    requires
        tree.valid(),
    ensures
        tree.inserted_all(values).valid(),
    decreases values.len(),
{
    if values.len() > 0 {
        lemma_run_keeps_valid(tree, values.drop_last());
        lemma_insert_keeps_valid(tree.inserted_all(values.drop_last()), values.last());
    }
}

/// A clean run of insertions leaves the placeholder pair under the zero
/// key.
pub proof fn lemma_run_keeps_pristine(tree: TreeView, values: Seq<Seq<u8>>)
    requires
        tree.pristine(),
        tree.clean_run(values),
    ensures
        tree.inserted_all(values).pristine(),
    decreases values.len(),
{
    if values.len() > 0 {
        lemma_run_keeps_pristine(tree, values.drop_last());
        lemma_insert_appends(tree.inserted_all(values.drop_last()), values.last());
    }
}

/// The empty tree holds no value.
pub proof fn lemma_empty_holds_nothing(value: Seq<u8>)
    ensures
        !TreeView::empty().contains(value),
{
}

/// After a clean run the tree holds what it held before, as far as that is
/// compatible with the values of the run.
pub proof fn lemma_run_keeps_others(tree: TreeView, values: Seq<Seq<u8>>, other: Seq<u8>)
    requires
        tree.valid(),
        tree.clean_run(values),
        fits_among(other, values),
        tree.contains(other),
    ensures
        tree.inserted_all(values).contains(other),
    decreases values.len(),
{
    if values.len() > 0 {
        let before = tree.inserted_all(values.drop_last());
        let last = values.last();
        assert(fits_among(other, values.drop_last())) by {
            assert forall|i: int| 0 <= i < values.drop_last().len() implies compatible(
                other,
                #[trigger] values.drop_last()[i],
            ) by {
                assert(values.drop_last()[i] == values[i]);
            }
        }
        lemma_run_keeps_others(tree, values.drop_last(), other);
        lemma_run_keeps_valid(tree, values.drop_last());
        assert(compatible(other, values[values.len() - 1]));
        if other == last {
            lemma_inserted_contains(before, last);
        } else {
            lemma_insert_keeps_others(before, last, other);
        }
    }
}

/// After a clean run of insertions the tree holds each value of the run
/// that is compatible with the others.
pub proof fn lemma_run_holds_its_values(tree: TreeView, values: Seq<Seq<u8>>, i: int)
    requires
        tree.valid(),
        tree.clean_run(values),
        0 <= i < values.len(),
        fits_among(values[i], values),
    ensures
        tree.inserted_all(values).contains(values[i]),
    decreases values.len(),
{
    let before = tree.inserted_all(values.drop_last());
    let last = values.last();
    lemma_run_keeps_valid(tree, values.drop_last());
    if i == values.len() - 1 {
        lemma_inserted_contains(before, last);
    } else {
        assert(values.drop_last()[i] == values[i]);
        assert(fits_among(values[i], values.drop_last())) by {
            assert forall|j: int| 0 <= j < values.drop_last().len() implies compatible(
                values[i],
                #[trigger] values.drop_last()[j],
            ) by {
                assert(values.drop_last()[j] == values[j]);
            }
        }
        lemma_run_holds_its_values(tree, values.drop_last(), i);
        assert(compatible(values[i], values[values.len() - 1]));
        if values[i] == last {
            lemma_inserted_contains(before, last);
        } else {
            lemma_insert_keeps_others(before, last, values[i]);
        }
    }
}

/// After a clean run of insertions the tree holds nothing new but the
/// values of the run. The value of 32 zero bytes is left out: a
/// placeholder leaf cannot be told from it.
pub proof fn lemma_run_holds_only_its_values(
    tree: TreeView,
    values: Seq<Seq<u8>>,
    other: Seq<u8>,
)
    requires
        tree.valid(),
        tree.pristine(),
        tree.clean_run(values),
        fits_among(other, values),
        other != zero_digest(),
        tree.inserted_all(values).contains(other),
    ensures
        tree.contains(other) || values.contains(other),
    decreases values.len(),
{
    if values.len() > 0 {
        let before = tree.inserted_all(values.drop_last());
        let last = values.last();
        assert(compatible(other, values[values.len() - 1]));
        if other != last {
            lemma_run_keeps_valid(tree, values.drop_last());
            lemma_run_keeps_pristine(tree, values.drop_last());
            lemma_insert_adds_no_others(before, last, other);
            assert(fits_among(other, values.drop_last())) by {
                assert forall|j: int| 0 <= j < values.drop_last().len() implies compatible(
                    other,
                    #[trigger] values.drop_last()[j],
                ) by {
                    assert(values.drop_last()[j] == values[j]);
                }
            }
            lemma_run_holds_only_its_values(tree, values.drop_last(), other);
            if values.drop_last().contains(other) {
                let j = choose|j: int|
                    0 <= j < values.drop_last().len() && values.drop_last()[j] == other;
                assert(values[j] == other);
            }
        } else {
            assert(values[values.len() - 1] == other);
        }
    }
}

/// What a tree holds below its root after a clean run of insertions is
/// what it held before, with the values of the run planted in it.
pub proof fn lemma_clean_run_plants(tree: TreeView, values: Seq<Seq<u8>>)
    requires
        tree.valid(),
        tree.clean_run(values),
    ensures
        unfolded(tree.inserted_all(values).nodes, tree.inserted_all(values).root, 0)
            == planted_all(unfolded(tree.nodes, tree.root, 0), values),
    decreases values.len(),
{
    if values.len() > 0 {
        lemma_clean_run_plants(tree, values.drop_last());
        lemma_run_keeps_valid(tree, values.drop_last());
        lemma_clean_insert_plants(tree.inserted_all(values.drop_last()), values.last());
    }
}

/// Planting a run of compatible values gives the same shape as planting
/// all but one of them first and that one last.
pub proof fn lemma_planted_last(shape: Shape, values: Seq<Seq<u8>>, i: int)
    requires
        0 <= i < values.len(),
        all_compatible(values),
    ensures
        planted_all(shape, values) == planted(
            planted_all(shape, values.remove(i)),
            path_of(values[i]),
            values[i],
            0,
        ),
    decreases values.len(),
{
    let rest = values.drop_last();
    let last = values.last();
    if i == values.len() - 1 {
        assert(values.remove(i) =~= rest);
    } else {
        assert(all_compatible(rest)) by {
            assert forall|a: int, b: int|
                0 <= a < rest.len() && 0 <= b < rest.len() implies compatible(
                #[trigger] rest[a],
                #[trigger] rest[b],
            ) by {
                assert(rest[a] == values[a] && rest[b] == values[b]);
            }
        }
        lemma_planted_last(shape, rest, i);
        assert(rest[i] == values[i]);
        assert(values.remove(i).drop_last() =~= rest.remove(i));
        assert(values.remove(i).last() == last);
        assert(compatible(values[i], values[values.len() - 1]));
        lemma_planted_commutes(
            planted_all(shape, rest.remove(i)),
            path_of(values[i]),
            values[i],
            path_of(last),
            last,
            0,
        );
    }
}

/// Planting the same compatible values in another order gives the same
/// shape.
pub proof fn lemma_planted_any_order(shape: Shape, first: Seq<Seq<u8>>, second: Seq<Seq<u8>>)
    requires
        first.to_multiset() == second.to_multiset(),
        all_compatible(first),
    ensures
        planted_all(shape, first) == planted_all(shape, second),
    decreases first.len(),
{
    first.to_multiset_ensures();
    second.to_multiset_ensures();
    if first.len() > 0 {
        let last = first.last();
        assert(first.contains(last)) by {
            assert(first[first.len() - 1] == last);
        }
        assert(first.to_multiset().count(last) > 0);
        assert(second.to_multiset().count(last) > 0);
        assert(second.contains(last));
        let i = choose|i: int| 0 <= i < second.len() && second[i] == last;
        assert(all_compatible(second)) by {
            assert forall|a: int, b: int|
                0 <= a < second.len() && 0 <= b < second.len() implies compatible(
                #[trigger] second[a],
                #[trigger] second[b],
            ) by {
                assert(second.contains(second[a]) && second.contains(second[b]));
                assert(second.to_multiset().count(second[a]) > 0);
                assert(second.to_multiset().count(second[b]) > 0);
                assert(first.to_multiset().count(second[a]) > 0);
                assert(first.to_multiset().count(second[b]) > 0);
                assert(first.contains(second[a]) && first.contains(second[b]));
                let fa = choose|fa: int| 0 <= fa < first.len() && first[fa] == second[a];
                let fb = choose|fb: int| 0 <= fb < first.len() && first[fb] == second[b];
                assert(compatible(first[fa], first[fb]));
            }
        }
        let rest = first.drop_last();
        assert(rest =~= first.remove(first.len() - 1));
        assert(rest.to_multiset() == second.remove(i).to_multiset());
        assert(all_compatible(rest)) by {
            assert forall|a: int, b: int|
                0 <= a < rest.len() && 0 <= b < rest.len() implies compatible(
                #[trigger] rest[a],
                #[trigger] rest[b],
            ) by {
                assert(rest[a] == first[a] && rest[b] == first[b]);
            }
        }
        lemma_planted_any_order(shape, rest, second.remove(i));
        lemma_planted_last(shape, second, i);
    } else {
        assert(second.len() == 0);
    }
}

/// Order independence: the same compatible values, inserted cleanly in
/// any two orders, give the same root.
pub proof fn lemma_root_ignores_order(
    tree: TreeView,
    first: Seq<Seq<u8>>,
    second: Seq<Seq<u8>>,
)
    requires
        tree.valid(),
        tree.clean_run(first),
        tree.clean_run(second),
        first.to_multiset() == second.to_multiset(),
        all_compatible(first),
    ensures
        tree.inserted_all(first).root == tree.inserted_all(second).root,
{
    first.to_multiset_ensures();
    second.to_multiset_ensures();
    let shape = unfolded(tree.nodes, tree.root, 0);
    lemma_planted_any_order(shape, first, second);
    if first.len() > 0 {
        lemma_clean_run_plants(tree, first.drop_last());
        lemma_clean_run_plants(tree, second.drop_last());
        lemma_root_after_is_planted(tree.inserted_all(first.drop_last()), first.last());
        lemma_root_after_is_planted(tree.inserted_all(second.drop_last()), second.last());
    }
}

/// Incrementality, for a tree grown from the empty one by a clean run of
/// `values`, and a `value` compatible with each of them: inserting a value
/// of the run again changes nothing, and inserting one that is not of the
/// run moves the root, provided it replaces no stored pair and is not the
/// value of 32 zero bytes.
pub proof fn lemma_seen_and_unseen(values: Seq<Seq<u8>>, value: Seq<u8>)
    requires
        TreeView::empty().clean_run(values),
        fits_among(value, values),
    ensures
        values.contains(value) ==> TreeView::empty().inserted_all(values).inserted(value)
            == TreeView::empty().inserted_all(values),
        !values.contains(value) && value != zero_digest() && TreeView::empty().inserted_all(
            values,
        ).spared_by(value) ==> TreeView::empty().inserted_all(values).inserted(value).root
            != TreeView::empty().inserted_all(values).root,
{
    let tree = TreeView::empty().inserted_all(values);
    lemma_run_keeps_valid(TreeView::empty(), values);
    if values.contains(value) {
        let i = choose|i: int| 0 <= i < values.len() && values[i] == value;
        lemma_run_holds_its_values(TreeView::empty(), values, i);
        lemma_insert_present(tree, value);
    } else if value != zero_digest() && tree.spared_by(value) {
        if tree.contains(value) {
            lemma_run_holds_only_its_values(TreeView::empty(), values, value);
        }
        lemma_insert_absent(tree, value);
    }
}

} // verus!
