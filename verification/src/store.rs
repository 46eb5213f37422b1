//! The node store: a content-addressed map from a digest to the pair of
//! children kept under it.
//!
//! Digests are spread evenly, so the store is a hash table indexed by the
//! first eight bytes of the key; the few entries that share an index are
//! told apart by their full keys.

use crate::node::{same_digest, Node, PairView};
use std::collections::HashMap;
use vstd::prelude::*;

verus! {

broadcast use vstd::std_specs::hash::group_hash_axioms;

/// What the store is in contracts.
pub type StoreView = Map<Seq<u8>, PairView>;

struct Entry {
    key: [u8; 32],
    left: Node,
    right: Node,
}

impl Entry {
    spec fn pair(self) -> PairView {
        (self.left@, self.right@)
    }
}

spec fn key_at(entries: Seq<Entry>, i: int) -> Seq<u8> {
    entries[i].key@
}

/// Whether `i` is the first position of `entries` that is kept under `key`.
spec fn first_at(entries: Seq<Entry>, key: Seq<u8>, i: int) -> bool {
    &&& 0 <= i < entries.len()
    &&& key_at(entries, i) == key
    &&& forall|j: int| 0 <= j < i ==> #[trigger] key_at(entries, j) != key
}

spec fn has_key(entries: Seq<Entry>, key: Seq<u8>) -> bool {
    exists|i: int| first_at(entries, key, i)
}

spec fn pair_of(entries: Seq<Entry>, key: Seq<u8>) -> PairView {
    entries[choose|i: int| first_at(entries, key, i)].pair()
}

/// The first `count` bytes of `key` read as one big-endian number.
spec fn leading(key: Seq<u8>, count: nat) -> u64
    decreases count,
{
    if count == 0 {
        0
    } else {
        (leading(key, (count - 1) as nat) << 8) | (key[count - 1] as u64)
    }
}

/// The table index of `key`.
spec fn slot(key: Seq<u8>) -> u64 {
    leading(key, 8)
}

/// The entries that share the table index of `key`.
spec fn bucket_of(buckets: Map<u64, Vec<Entry>>, key: Seq<u8>) -> Seq<Entry> {
    if buckets.contains_key(slot(key)) {
        buckets[slot(key)]@
    } else {
        Seq::empty()
    }
}

/// The pairs stored so far, each under its key.
pub struct NodeStore {
    buckets: HashMap<u64, Vec<Entry>>,
}

impl View for NodeStore {
    type V = StoreView;

    closed spec fn view(&self) -> StoreView {
        Map::new(
            |key: Seq<u8>| has_key(bucket_of(self.buckets@, key), key),
            |key: Seq<u8>| pair_of(bucket_of(self.buckets@, key), key),
        )
    }
}

fn slot_of(key: &[u8; 32]) -> (index: u64)
    ensures
        index == slot(key@),
{
    let mut index: u64 = 0;
    let mut i: usize = 0;
    while i < 8
        invariant
            i <= 8,
            index == leading(key@, i as nat),
        decreases 8 - i,
    {
        index = (index << 8) | (key[i] as u64);
        i += 1;
    }
    index
}

/// The first position of `entries` that is kept under `key`.
fn find(entries: &Vec<Entry>, key: &[u8; 32]) -> (found: Option<usize>)
    ensures
        match found {
            Some(i) => first_at(entries@, key@, i as int),
            None => forall|j: int| 0 <= j < entries@.len() ==> #[trigger] key_at(entries@, j) != key@,
        },
{
    let mut i: usize = 0;
    while i < entries.len()
        invariant
            i <= entries@.len(),
            forall|j: int| 0 <= j < i ==> #[trigger] key_at(entries@, j) != key@,
        decreases entries@.len() - i,
    {
        if same_digest(&entries[i].key, key) {
            return Some(i);
        }
        i += 1;
    }
    None
}

/// Keeps `(left, right)` under `key` among `entries`, in place of the pair
/// that was kept under it, if any; the other keys keep their pairs.
fn keep(entries: &mut Vec<Entry>, key: [u8; 32], left: Node, right: Node)
    ensures
        has_key(final(entries)@, key@),
        pair_of(final(entries)@, key@) == (left@, right@),
        forall|k: Seq<u8>|
            k != key@ ==> has_key(final(entries)@, k) == has_key(old(entries)@, k),
        forall|k: Seq<u8>|
            k != key@ && has_key(old(entries)@, k) ==> pair_of(final(entries)@, k) == pair_of(
                old(entries)@,
                k,
            ),
{
    let found = find(entries, &key);
    let entry = Entry { key, left, right };
    match found {
        Some(i) => {
            entries[i] = entry;
        },
        None => {
            entries.push(entry);
        },
    }
    proof {
        let before = old(entries)@;
        let after = entries@;
        let at: int = match found {
            Some(i) => i as int,
            None => before.len() as int,
        };
        assert(first_at(after, key@, at)) by {
            assert forall|j: int| 0 <= j < at implies #[trigger] key_at(after, j) != key@ by {
                assert(key_at(before, j) != key@);
            }
        }
        assert(after[at].pair() == (left@, right@));
        assert forall|k: Seq<u8>, j: int| k != key@ implies (first_at(after, k, j) <==> first_at(
            before,
            k,
            j,
        )) by {
            if first_at(after, k, j) {
                assert(key_at(before, j) == k);
                assert forall|h: int| 0 <= h < j implies #[trigger] key_at(before, h) != k by {
                    assert(key_at(after, h) != k);
                }
            }
            if first_at(before, k, j) {
                assert(key_at(after, j) == k);
                assert forall|h: int| 0 <= h < j implies #[trigger] key_at(after, h) != k by {
                    assert(key_at(before, h) != k);
                }
            }
        }
        assert forall|k: Seq<u8>| k != key@ implies has_key(after, k) == has_key(before, k) && (
        has_key(before, k) ==> pair_of(after, k) == pair_of(before, k)) by {
            if has_key(after, k) {
                let j = choose|j: int| first_at(after, k, j);
                assert(first_at(before, k, j));
                let j0 = choose|j: int| first_at(before, k, j);
                assert(first_at(after, k, j0));
                assert(key_at(after, j) == k && key_at(after, j0) == k);
                assert(j == j0);
                assert(j != at);
            }
            if has_key(before, k) {
                let j = choose|j: int| first_at(before, k, j);
                assert(first_at(after, k, j));
            }
        }
        assert(has_key(after, key@));
        assert(pair_of(after, key@) == (left@, right@)) by {
            let j = choose|j: int| first_at(after, key@, j);
            assert(key_at(after, j) == key@ && key_at(after, at) == key@);
            assert(j == at);
        }
    }
}

impl NodeStore {
    /// A store that holds nothing.
    pub fn new() -> (store: NodeStore)
        ensures
            store@ == Map::<Seq<u8>, PairView>::empty(),
    {
        let store = NodeStore { buckets: HashMap::new() };
        assert forall|key: Seq<u8>| !has_key(bucket_of(store.buckets@, key), key) by {
            assert(bucket_of(store.buckets@, key).len() == 0);
        }
        assert(store@ =~= Map::<Seq<u8>, PairView>::empty());
        store
    }

    /// The pair kept under `key`, if there is one.
    pub fn get(&self, key: &[u8; 32]) -> (found: Option<(Node, Node)>)
        ensures
            match found {
                Some(pair) => self@.contains_key(key@) && (pair.0@, pair.1@) == self@[key@],
                None => !self@.contains_key(key@),
            },
    {
        let index = slot_of(key);
        match self.buckets.get(&index) {
            Some(bucket) => {
                match find(bucket, key) {
                    Some(i) => {
                        let entry = &bucket[i];
                        Some((entry.left.clone(), entry.right.clone()))
                    },
                    None => None,
                }
            },
            None => None,
        }
    }

    /// Keeps `(left, right)` under `key`, in place of what was there.
    pub fn put(&mut self, key: [u8; 32], left: Node, right: Node)
        ensures
            final(self)@ == old(self)@.insert(key@, (left@, right@)),
    {
        let index = slot_of(&key);
        let mut bucket = match self.buckets.remove(&index) {
            Some(bucket) => bucket,
            None => Vec::new(),
        };
        let ghost shared = bucket@;
        assert(shared == bucket_of(old(self).buckets@, key@));
        keep(&mut bucket, key, left, right);
        let ghost kept = bucket@;
        self.buckets.insert(index, bucket);
        proof {
            let before = old(self).buckets@;
            let after = self.buckets@;
            assert forall|k: Seq<u8>| #[trigger] bucket_of(after, k) == if slot(k) == index {
                kept
            } else {
                bucket_of(before, k)
            } by {}
            assert forall|k: Seq<u8>| slot(k) == index implies #[trigger] bucket_of(before, k)
                == shared by {}
            assert(self@ =~= old(self)@.insert(key@, (left@, right@)));
        }
    }
}

} // verus!
