//! Tree nodes, their byte form and their mathematical view.

use vstd::prelude::*;

verus! {

/// One child of a stored pair.
pub enum Node {
    /// Raw bytes: an inserted value, or 32 zero bytes where nothing is yet.
    Leaf(Box<[u8]>),
    /// The digest under which the store keeps this child's own pair.
    Branch([u8; 32]),
}

/// What a [`Node`] is in contracts.
pub enum NodeView {
    Leaf(Seq<u8>),
    Branch(Seq<u8>),
}

/// A stored entry: the left and the right child.
pub type PairView = (NodeView, NodeView);

impl View for Node {
    type V = NodeView;

    open spec fn view(&self) -> NodeView {
        match self {
            Node::Leaf(bytes) => NodeView::Leaf(bytes@),
            Node::Branch(digest) => NodeView::Branch(digest@),
        }
    }
}

/// Thirty-two zero bytes: the root of the empty tree and the key of the
/// placeholder pair.
pub open spec fn zero_digest() -> Seq<u8> {
    Seq::new(32, |i: int| 0u8)
}

/// The pair that stands for a subtree nothing was ever inserted into.
pub open spec fn empty_pair() -> PairView {
    (NodeView::Leaf(zero_digest()), NodeView::Leaf(zero_digest()))
}

/// The key under which a node's children are looked up: a branch's digest,
/// and the zero digest for a leaf.
pub open spec fn child_key(node: NodeView) -> Seq<u8> {
    match node {
        NodeView::Branch(digest) => digest,
        NodeView::Leaf(_) => zero_digest(),
    }
}

/// The bytes a node contributes to its parent's digest.
pub open spec fn serialized(node: NodeView) -> Seq<u8> {
    match node {
        NodeView::Branch(digest) => digest,
        NodeView::Leaf(bytes) => bytes,
    }
}

/// Copies a slice into a box through std's `From<&[u8]> for Box<[u8]>`,
/// which keeps the bytes as they are.
#[verifier::external_body]
pub(crate) fn boxed(bytes: &[u8]) -> (b: Box<[u8]>)
    ensures
        b@ == bytes@,
{
    bytes.into()
}

/// The key under which the children of `node` are looked up.
pub fn _extract_key(node: &Node) -> (key: [u8; 32])
    ensures
        key@ == child_key(node@),
{
    match node {
        Node::Branch(h) => *h,
        _ => [0u8; 32],
    }
}

impl Node {
    /// A leaf that holds a copy of `bytes`.
    pub fn leaf(bytes: &[u8]) -> (node: Node)
        ensures
            node@ == NodeView::Leaf(bytes@),
    {
        Node::Leaf(boxed(bytes))
    }

    /// The leaf of 32 zero bytes.
    pub fn placeholder() -> (node: Node)
        ensures
            node@ == NodeView::Leaf(zero_digest()),
    {
        let zero = [0u8; 32];
        assert(zero@ =~= zero_digest());
        Node::leaf(&zero)
    }

    /// The bytes this node contributes to its parent's digest.
    pub fn as_bytes(&self) -> (bytes: &[u8])
        ensures
            bytes@ == serialized(self@),
    {
        match self {
            Node::Leaf(bytes) => &**bytes,
            Node::Branch(digest) => digest,
        }
    }
}

impl Clone for Node {
    /// A copy of this node, with the same bytes.
    fn clone(&self) -> (copy: Node)
        ensures
            copy@ == self@,
    {
        match self {
            Node::Leaf(bytes) => Node::Leaf(boxed(&**bytes)),
            Node::Branch(digest) => Node::Branch(*digest),
        }
    }
}

/// Whether two digests hold the same bytes.
pub fn same_digest(a: &[u8; 32], b: &[u8; 32]) -> (same: bool)
    ensures
        same == (a@ == b@),
{
    let mut i: usize = 0;
    while i < 32
        invariant
            i <= 32,
            forall|j: int| 0 <= j < i ==> a@[j] == b@[j],
        decreases 32 - i,
    {
        if a[i] != b[i] {
            return false;
        }
        i += 1;
    }
    assert(a@ =~= b@);
    true
}

} // verus!
