//! The recursive node representation of the tree.

use vstd::prelude::*;

use crate::hashable::Hashable;
use crate::hashing::{hash_leaf_data, hash_node_data, leaf_hash_of, node_hash_of};

verus! {

/// Common type for leaves and internal nodes. Every element carries its
/// digest, computed once at construction; the tree is immutable once built.
#[derive(Debug)]
pub enum TreeElement<T: Hashable> {
    /// A leaf holds one stored value and the digest of the value's bytes.
    Leaf {
        /// Value stored within the tree.
        value: T,
        /// Digest of the stored value's bytes.
        hash: Vec<u8>,
    },
    /// An internal node holds two owned children and their combined digest.
    Node {
        /// The left subtree.
        left: Box<TreeElement<T>>,
        /// The right subtree.
        right: Box<TreeElement<T>>,
        /// Combined digest of the two child digests, in order.
        hash: Vec<u8>,
    },
}

impl<T: Hashable> TreeElement<T> {
    /// The digest stored in the element.
    pub open spec fn stored_hash(self) -> Seq<u8> {
        match self {
            TreeElement::Leaf { hash, .. } => hash@,
            TreeElement::Node { hash, .. } => hash@,
        }
    }

    /// The digest an element with this content ought to carry: the leaf
    /// digest of the value's bytes, or the node digest over the children's
    /// own digests.
    pub open spec fn spec_digest(self) -> Seq<u8>
        decreases self,
    {
        match self {
            TreeElement::Leaf { value, .. } => leaf_hash_of(value.bytes()),
            TreeElement::Node { left, right, .. } => node_hash_of(
                left.spec_digest(),
                right.spec_digest(),
            ),
        }
    }

    /// Every digest stored in the element matches its content.
    pub open spec fn well_formed(self) -> bool
        decreases self,
    {
        match self {
            TreeElement::Leaf { value, hash } => hash@ == leaf_hash_of(value.bytes()),
            TreeElement::Node { left, right, hash } => left.well_formed() && right.well_formed()
                && hash@ == node_hash_of(left.spec_digest(), right.spec_digest()),
        }
    }

    /// The byte representations of the stored values, left to right.
    pub open spec fn leaf_bytes(self) -> Seq<Seq<u8>>
        decreases self,
    {
        match self {
            TreeElement::Leaf { value, .. } => seq![value.bytes()],
            TreeElement::Node { left, right, .. } => left.leaf_bytes() + right.leaf_bytes(),
        }
    }

    /// Whether some leaf holds a value with the given byte representation.
    pub open spec fn contains_bytes(self, b: Seq<u8>) -> bool
        decreases self,
    {
        match self {
            TreeElement::Leaf { value, .. } => value.bytes() == b,
            TreeElement::Node { left, right, .. } => left.contains_bytes(b)
                || right.contains_bytes(b),
        }
    }

    /// The inclusion-proof path for the byte string `b`: the sibling digest
    /// and its side recorded at each node on the way from the leftmost leaf
    /// whose value bytes equal `b` up to this element, ordered leaf to root.
    /// A recorded `true` means the sibling is the left child.
    pub open spec fn spec_path(self, b: Seq<u8>) -> Seq<(Seq<u8>, bool)>
        recommends
            self.contains_bytes(b),
        decreases self,
    {
        match self {
            TreeElement::Leaf { .. } => Seq::empty(),
            TreeElement::Node { left, right, .. } => if left.contains_bytes(b) {
                left.spec_path(b).push((right.stored_hash(), false))
            } else {
                right.spec_path(b).push((left.stored_hash(), true))
            },
        }
    }

    /// In a well-formed element the stored digest is the digest of the
    /// content.
    pub proof fn lemma_wf_stored_is_digest(self)
        requires
            self.well_formed(),
        ensures
            self.stored_hash() == self.spec_digest(),
    {
    }

    /// A byte string occurs among the leaf bytes exactly when some leaf holds
    /// a value with that byte representation.
    pub proof fn lemma_contains_leaf_bytes(self, b: Seq<u8>)
        ensures
            self.contains_bytes(b) <==> self.leaf_bytes().contains(b),
        decreases self,
    {
        match self {
            TreeElement::Leaf { value, .. } => {
                assert(self.leaf_bytes()[0] == value.bytes());
                if value.bytes() == b {
                    assert(self.leaf_bytes().contains(b));
                }
            },
            TreeElement::Node { left, right, .. } => {
                left.lemma_contains_leaf_bytes(b);
                right.lemma_contains_leaf_bytes(b);
                if left.leaf_bytes().contains(b) {
                    let i = choose|i: int|
                        0 <= i < left.leaf_bytes().len() && left.leaf_bytes()[i] == b;
                    assert(self.leaf_bytes()[i] == b);
                }
                if right.leaf_bytes().contains(b) {
                    let i = choose|i: int|
                        0 <= i < right.leaf_bytes().len() && right.leaf_bytes()[i] == b;
                    assert(self.leaf_bytes()[left.leaf_bytes().len() + i] == b);
                }
                if self.leaf_bytes().contains(b) {
                    let i = choose|i: int|
                        0 <= i < self.leaf_bytes().len() && self.leaf_bytes()[i] == b;
                    if i < left.leaf_bytes().len() {
                        assert(left.leaf_bytes()[i] == b);
                    } else {
                        assert(right.leaf_bytes()[i - left.leaf_bytes().len()] == b);
                    }
                }
            },
        }
    }

    /// Returns hash according to a node type.
    pub fn hash(&self) -> (r: &[u8])
        ensures
            r@ == self.stored_hash(),
    {
        match self {
            TreeElement::Leaf { hash, .. } => hash.as_slice(),
            TreeElement::Node { hash, .. } => hash.as_slice(),
        }
    }

    /// Returns an owned copy of the element's stored digest.
    pub(crate) fn hash_vec(&self) -> (r: Vec<u8>)
        ensures
            r@ == self.stored_hash(),
    {
        vstd::slice::slice_to_vec(self.hash())
    }

    /// Produces new leaf node from data.
    pub fn new_leaf(value: T) -> (r: TreeElement<T>)
        ensures
            r is Leaf,
            r->Leaf_value == value,
            r.well_formed(),
            r.spec_digest() == leaf_hash_of(value.bytes()),
            r.leaf_bytes() == seq![value.bytes()],
    {
        let bytes = value.get_bytes();
        let hash = hash_leaf_data(bytes.as_slice());
        TreeElement::Leaf { value, hash }
    }

    /// Produces new internal node from children elements; the digest combines
    /// the children's stored digests in order.
    pub fn new_node(left: TreeElement<T>, right: TreeElement<T>) -> (r: TreeElement<T>)
        ensures
            r is Node,
            *(r->Node_left) == left,
            *(r->Node_right) == right,
            r.stored_hash() == node_hash_of(left.stored_hash(), right.stored_hash()),
            left.well_formed() && right.well_formed() ==> r.well_formed(),
            r.leaf_bytes() == left.leaf_bytes() + right.leaf_bytes(),
    {
        proof {
            if left.well_formed() && right.well_formed() {
                left.lemma_wf_stored_is_digest();
                right.lemma_wf_stored_is_digest();
            }
        }
        let hash = hash_node_data(left.hash(), right.hash());
        TreeElement::Node { left: Box::new(left), right: Box::new(right), hash }
    }
}

} // verus!
