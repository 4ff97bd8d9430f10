//! Detached inclusion proofs and their validation.

use vstd::prelude::*;

use crate::hashable::Hashable;
use crate::hashing::{bytes_equal, hash_leaf_data, hash_node_data, leaf_hash_of, node_hash_of};
use crate::treeelement::TreeElement;

verus! {

/// One step of an inclusion proof: a sibling's digest, and whether that
/// sibling is the left child of the node where it was recorded.
pub(crate) struct ProofStep {
    pub(crate) hash: Vec<u8>,
    pub(crate) is_left: bool,
}

/// The recorded steps as pairs of sibling digest and side flag.
pub(crate) open spec fn steps_view(steps: Seq<ProofStep>) -> Seq<(Seq<u8>, bool)> {
    steps.map(|i: int, s: ProofStep| (s.hash@, s.is_left))
}

/// Folds a starting digest through a proof path, leaf to root: at each step
/// the running digest is combined with the recorded sibling digest, on the
/// side the flag gives, into the next node digest.
pub open spec fn fold_path(start: Seq<u8>, path: Seq<(Seq<u8>, bool)>) -> Seq<u8>
    decreases path.len(),
{
    if path.len() == 0 {
        start
    } else {
        let next = if path[0].1 {
            node_hash_of(path[0].0, start)
        } else {
            node_hash_of(start, path[0].0)
        };
        fold_path(next, path.drop_first())
    }
}

/// Folding through a path extended by one step combines the fold of the
/// shorter path with the added sibling digest.
pub proof fn lemma_fold_path_push(start: Seq<u8>, path: Seq<(Seq<u8>, bool)>, step: (Seq<u8>, bool))
    ensures
        fold_path(start, path.push(step)) == if step.1 {
            node_hash_of(step.0, fold_path(start, path))
        } else {
            node_hash_of(fold_path(start, path), step.0)
        },
    decreases path.len(),
{
    assert(path.push(step)[path.len() as int] == step);
    if path.len() == 0 {
        reveal_with_fuel(fold_path, 2);
        assert(path.push(step)[0] == step);
        assert(path.push(step).drop_first() =~= Seq::<(Seq<u8>, bool)>::empty());
    } else {
        assert(path.push(step)[0] == path[0]);
        let next = if path[0].1 {
            node_hash_of(path[0].0, start)
        } else {
            node_hash_of(start, path[0].0)
        };
        assert(path.push(step).drop_first() =~= path.drop_first().push(step));
        lemma_fold_path_push(next, path.drop_first(), step);
    }
}

/// Inclusion soundness: in a well-formed element that holds a value with
/// bytes `b`, folding the leaf digest of `b` through the element's proof path
/// for `b` rebuilds the element's digest.
pub proof fn lemma_inclusion_soundness<T: Hashable>(elem: TreeElement<T>, b: Seq<u8>)
    requires
        elem.well_formed(),
        elem.contains_bytes(b),
    ensures
        fold_path(leaf_hash_of(b), elem.spec_path(b)) == elem.spec_digest(),
    decreases elem,
{
    match elem {
        TreeElement::Leaf { .. } => {},
        TreeElement::Node { left, right, .. } => {
            if left.contains_bytes(b) {
                lemma_inclusion_soundness(*left, b);
                right.lemma_wf_stored_is_digest();
                lemma_fold_path_push(leaf_hash_of(b), left.spec_path(b), (right.stored_hash(), false));
            } else {
                lemma_inclusion_soundness(*right, b);
                left.lemma_wf_stored_is_digest();
                lemma_fold_path_push(leaf_hash_of(b), right.spec_path(b), (left.stored_hash(), true));
            }
        },
    }
}

/// Depth-first search for the leftmost leaf whose value bytes equal `target`.
/// On success returns the recorded sibling steps, ordered leaf to root.
pub(crate) fn search_path<T: Hashable>(elem: &TreeElement<T>, target: &[u8]) -> (r: Option<
    Vec<ProofStep>,
>)
    ensures
        r is Some <==> elem.contains_bytes(target@),
        r matches Some(steps) ==> steps_view(steps@) == elem.spec_path(target@),
    decreases *elem,
{
    match elem {
        TreeElement::Leaf { value, .. } => {
            let value_bytes = value.get_bytes();
            if bytes_equal(value_bytes.as_slice(), target) {
                let steps: Vec<ProofStep> = Vec::new();
                proof {
                    assert(steps_view(steps@) =~= elem.spec_path(target@));
                }
                Some(steps)
            } else {
                None
            }
        },
        TreeElement::Node { left, right, .. } => {
            match search_path(&**left, target) {
                Some(mut steps) => {
                    let ghost steps_before = steps@;
                    steps.push(ProofStep { hash: right.hash_vec(), is_left: false });
                    proof {
                        assert(steps_view(steps@) =~= steps_view(steps_before).push(
                            (right.stored_hash(), false),
                        ));
                    }
                    Some(steps)
                },
                None => match search_path(&**right, target) {
                    Some(mut steps) => {
                        let ghost steps_before = steps@;
                        steps.push(ProofStep { hash: left.hash_vec(), is_left: true });
                        proof {
                            assert(steps_view(steps@) =~= steps_view(steps_before).push(
                                (left.stored_hash(), true),
                            ));
                        }
                        Some(steps)
                    },
                    None => None,
                },
            }
        },
    }
}

/// An ordered sequence of sibling digests and side flags, leaf to root,
/// together with the value it was generated for. A proof is detached: it has
/// no reference back to the tree and is checked against a candidate root
/// digest alone.
pub struct Proof<T: Hashable> {
    value: T,
    steps: Vec<ProofStep>,
}

impl<T: Hashable> Proof<T> {
    /// The byte representation of the value the proof speaks for.
    pub closed spec fn value_bytes(self) -> Seq<u8> {
        self.value.bytes()
    }

    /// The recorded path: sibling digest and is-left flag for each step,
    /// ordered leaf to root.
    pub closed spec fn path(self) -> Seq<(Seq<u8>, bool)> {
        steps_view(self.steps@)
    }

    /// Packs a value and the path recorded for it into a detached proof.
    pub(crate) fn from_parts(value: T, steps: Vec<ProofStep>) -> (p: Proof<T>)
        ensures
            p.value_bytes() == value.bytes(),
            p.path() == steps_view(steps@),
    {
        Proof { value, steps }
    }

    /// Recomputes the root digest from the proof's value and recorded path
    /// and compares it byte for byte to the candidate root digest. Returns
    /// `true` exactly when they are equal; it never fails.
    pub fn validate(&self, root_hash: &[u8]) -> (r: bool)
        ensures
            r == (fold_path(leaf_hash_of(self.value_bytes()), self.path()) == root_hash@),
    {
        let value_bytes = self.value.get_bytes();
        let mut current = hash_leaf_data(value_bytes.as_slice());
        let mut i: usize = 0;
        proof {
            assert(self.path().skip(0) =~= self.path());
        }
        while i < self.steps.len()
            invariant
                i <= self.steps@.len(),
                self.path().len() == self.steps@.len(),
                fold_path(current@, self.path().skip(i as int)) == fold_path(
                    leaf_hash_of(self.value_bytes()),
                    self.path(),
                ),
            decreases self.steps@.len() - i,
        {
            let step = &self.steps[i];
            let next = if step.is_left {
                hash_node_data(step.hash.as_slice(), current.as_slice())
            } else {
                hash_node_data(current.as_slice(), step.hash.as_slice())
            };
            proof {
                assert(self.path().skip(i as int)[0] == self.path()[i as int]);
                assert(self.path().skip(i as int).drop_first() =~= self.path().skip(i + 1 as int));
            }
            current = next;
            i = i + 1;
        }
        proof {
            assert(self.path().skip(i as int) =~= Seq::<(Seq<u8>, bool)>::empty());
        }
        bytes_equal(current.as_slice(), root_hash)
    }
}

} // verus!
