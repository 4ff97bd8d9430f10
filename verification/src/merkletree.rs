//! The tree itself: bottom-up construction, root-hash access and
//! inclusion-proof generation.

use vstd::prelude::*;

use crate::hashable::Hashable;
use crate::hashing::{leaf_hash_of, node_hash_of};
use crate::inclusion::{fold_path, lemma_inclusion_soundness, search_path, Proof};
use crate::treeelement::TreeElement;

verus! {

/// The one constructor-time failure: a tree cannot be built from an empty
/// sequence of values, because an empty tree has no well-defined root.
#[derive(Debug, PartialEq, Eq)]
pub struct EmptyInputError;

/// The byte representations of a sequence of values, in order.
pub open spec fn values_bytes<T: Hashable>(vs: Seq<T>) -> Seq<Seq<u8>> {
    vs.map(|i: int, v: T| v.bytes())
}

/// The leaf digests of the given value byte strings, in order.
pub open spec fn leaf_digests_of(bs: Seq<Seq<u8>>) -> Seq<Seq<u8>> {
    bs.map(|i: int, b: Seq<u8>| leaf_hash_of(b))
}

/// One round of bottom-up combination: adjacent digests are paired left to
/// right, each pair becoming one node digest; an unpaired trailing digest is
/// promoted unchanged to the next level.
pub open spec fn level_up(ds: Seq<Seq<u8>>) -> Seq<Seq<u8>>
    decreases ds.len(),
{
    if ds.len() <= 1 {
        ds
    } else {
        seq![node_hash_of(ds[0], ds[1])] + level_up(ds.skip(2))
    }
}

/// One combination round halves a level, rounding up.
pub proof fn lemma_level_up_len(ds: Seq<Seq<u8>>)
    ensures
        level_up(ds).len() == (ds.len() + 1) / 2,
    decreases ds.len(),
{
    if ds.len() > 1 {
        lemma_level_up_len(ds.skip(2));
    }
}

/// The root digest of the tree built over the given leaf digests: levels are
/// combined bottom-up until one digest remains.
pub open spec fn root_digest_of(ds: Seq<Seq<u8>>) -> Seq<u8>
    recommends
        ds.len() >= 1,
    decreases ds.len()
        via root_digest_of_decreases
{
    if ds.len() <= 1 {
        ds[0]
    } else {
        root_digest_of(level_up(ds))
    }
}

#[via_fn]
proof fn root_digest_of_decreases(ds: Seq<Seq<u8>>) {
    if ds.len() > 1 {
        lemma_level_up_len(ds);
    }
}

/// The root digest of the tree built from values with the given byte strings.
pub open spec fn tree_root_of(vals: Seq<Seq<u8>>) -> Seq<u8>
    recommends
        vals.len() >= 1,
{
    root_digest_of(leaf_digests_of(vals))
}

/// For a single value the tree degenerates to one leaf: the root digest is
/// the leaf digest of that value's bytes.
pub proof fn lemma_singleton_root(b: Seq<u8>)
    ensures
        tree_root_of(seq![b]) == leaf_hash_of(b),
{
    assert(leaf_digests_of(seq![b]).len() == 1);
    assert(leaf_digests_of(seq![b])[0] == leaf_hash_of(b));
}

/// The digests of a sequence of elements, in order.
spec fn digests_of<T: Hashable>(es: Seq<TreeElement<T>>) -> Seq<Seq<u8>> {
    es.map(|i: int, e: TreeElement<T>| e.spec_digest())
}

/// Every element of the sequence is well formed.
spec fn all_well_formed<T: Hashable>(es: Seq<TreeElement<T>>) -> bool {
    forall|i: int| 0 <= i < es.len() ==> (#[trigger] es[i]).well_formed()
}

/// The leaf bytes of a sequence of elements, concatenated in order.
spec fn leaves_of<T: Hashable>(es: Seq<TreeElement<T>>) -> Seq<Seq<u8>>
    decreases es.len(),
{
    if es.len() == 0 {
        Seq::empty()
    } else {
        es[0].leaf_bytes() + leaves_of(es.drop_first())
    }
}

proof fn lemma_leaves_of_push<T: Hashable>(es: Seq<TreeElement<T>>, e: TreeElement<T>)
    ensures
        leaves_of(es.push(e)) == leaves_of(es) + e.leaf_bytes(),
    decreases es.len(),
{
    assert(es.push(e)[es.len() as int] == e);
    if es.len() == 0 {
        assert(es.push(e)[0] == e);
        assert(es.push(e).drop_first() =~= Seq::<TreeElement<T>>::empty());
        assert(leaves_of(es.push(e)) == e.leaf_bytes() + leaves_of(es.push(e).drop_first()));
        assert(leaves_of(Seq::<TreeElement<T>>::empty()) =~= Seq::<Seq<u8>>::empty());
        assert(e.leaf_bytes() + Seq::<Seq<u8>>::empty() =~= e.leaf_bytes());
        assert(leaves_of(es) + e.leaf_bytes() =~= e.leaf_bytes());
    } else {
        assert(es.push(e)[0] == es[0]);
        assert(es.push(e).drop_first() =~= es.drop_first().push(e));
        lemma_leaves_of_push(es.drop_first(), e);
        assert(es[0].leaf_bytes() + (leaves_of(es.drop_first()) + e.leaf_bytes()) =~= (
        es[0].leaf_bytes() + leaves_of(es.drop_first())) + e.leaf_bytes());
    }
}

/// A Merkle hash tree owning its root element. Built once from a non-empty
/// ordered sequence of values; read-only thereafter.
#[derive(Debug)]
pub struct MerkleTree<T: Hashable> {
    root: TreeElement<T>,
}

impl<T: Hashable> MerkleTree<T> {
    #[verifier::type_invariant]
    spec fn inv(self) -> bool {
        self.root.well_formed()
    }

    /// The digest of the root element: the tree's commitment value.
    pub closed spec fn root_digest(self) -> Seq<u8> {
        self.root.spec_digest()
    }

    /// The byte representations of the stored values, in input order.
    pub closed spec fn leaf_bytes(self) -> Seq<Seq<u8>> {
        self.root.leaf_bytes()
    }

    /// The proof path the tree records for the byte string `b`, following the
    /// leftmost leaf whose value bytes equal `b`.
    pub closed spec fn path_for(self, b: Seq<u8>) -> Seq<(Seq<u8>, bool)> {
        self.root.spec_path(b)
    }

    /// Builds a tree bottom-up from the given values: each value becomes a
    /// leaf, in input order, and adjacent elements are then paired left to
    /// right, level by level, until one element remains. When a level holds an
    /// odd number of elements the unpaired trailing element is promoted
    /// unchanged to the next level. Fails exactly when `values` is empty; the
    /// root digest of a built tree is a function of the sequence of value
    /// bytes alone.
    pub fn from_vector(values: Vec<T>) -> (r: Result<MerkleTree<T>, EmptyInputError>)
        ensures
            r is Err <==> values@.len() == 0,
            r matches Ok(t) ==> t.leaf_bytes() == values_bytes(values@) && t.root_digest()
                == tree_root_of(values_bytes(values@)),
    {
        if values.len() == 0 {
            return Err(EmptyInputError);
        }
        let ghost all_bytes = values_bytes(values@);
        let mut work = values;
        let mut level: Vec<TreeElement<T>> = Vec::new();

        proof {
            assert(leaves_of(level@) =~= Seq::<Seq<u8>>::empty());
            assert(leaves_of(level@) + values_bytes(work@) =~= all_bytes);
            assert(digests_of(level@) =~= leaf_digests_of(leaves_of(level@)));
        }
        while work.len() > 0
            invariant
                all_well_formed(level@),
                leaves_of(level@) + values_bytes(work@) == all_bytes,
                digests_of(level@) == leaf_digests_of(leaves_of(level@)),
                leaves_of(level@).len() == level@.len(),
            decreases work@.len(),
        {
            let ghost level_before = level@;
            let ghost work_before = work@;
            let v = work.remove(0);
            let leaf = TreeElement::new_leaf(v);
            level.push(leaf);
            proof {
                assert(values_bytes(work@) =~= values_bytes(work_before).drop_first());
                assert(values_bytes(work_before)[0] == v.bytes());
                assert(values_bytes(work_before) =~= seq![v.bytes()] + values_bytes(work@));
                lemma_leaves_of_push(level_before, leaf);
                assert(leaves_of(level@) == leaves_of(level_before) + seq![v.bytes()]);
                assert((leaves_of(level_before) + seq![v.bytes()]) + values_bytes(work@) =~= leaves_of(
                level_before) + (seq![v.bytes()] + values_bytes(work@)));
                assert(digests_of(level@) =~= digests_of(level_before).push(leaf.spec_digest()));
                assert(leaf_digests_of(leaves_of(level@)) =~= leaf_digests_of(
                    leaves_of(level_before),
                ).push(leaf_hash_of(v.bytes())));
                assert(all_well_formed(level@)) by {
                    assert(forall|i: int|
                        0 <= i < level_before.len() ==> level@[i] == level_before[i]);
                    assert(level@[level_before.len() as int] == leaf);
                }
            }
        }
        proof {
            assert(values_bytes(work@) =~= Seq::<Seq<u8>>::empty());
            assert(leaves_of(level@) + values_bytes(work@) =~= leaves_of(level@));
            assert(leaves_of(level@) == all_bytes);
            assert(level@.len() >= 1);
            assert(root_digest_of(digests_of(level@)) == root_digest_of(leaf_digests_of(all_bytes)));
        }

        while level.len() > 1
            invariant
                level@.len() >= 1,
                all_well_formed(level@),
                leaves_of(level@) == all_bytes,
                root_digest_of(digests_of(level@)) == root_digest_of(leaf_digests_of(all_bytes)),
            decreases level@.len(),
        {
            let ghost prev = level@;
            proof {
                lemma_level_up_len(digests_of(prev));
            }
            let mut next: Vec<TreeElement<T>> = Vec::new();
            proof {
                assert(leaves_of(next@) =~= Seq::<Seq<u8>>::empty());
                assert(leaves_of(next@) + leaves_of(level@) =~= leaves_of(prev));
                assert(digests_of(next@) + level_up(digests_of(level@)) =~= level_up(
                    digests_of(prev),
                ));
            }
            while level.len() >= 2
                invariant
                    all_well_formed(level@),
                    all_well_formed(next@),
                    leaves_of(next@) + leaves_of(level@) == leaves_of(prev),
                    digests_of(next@) + level_up(digests_of(level@)) == level_up(digests_of(prev)),
                decreases level@.len(),
            {
                let ghost lv = level@;
                let ghost nx = next@;
                let a = level.remove(0);
                let b = level.remove(0);
                proof {
                    assert(lv.remove(0) =~= lv.drop_first());
                    assert(lv.drop_first().remove(0) =~= lv.skip(2));
                    assert(level@ =~= lv.skip(2));
                    assert(a == lv[0] && b == lv[1]);
                    assert(a.well_formed() && b.well_formed());
                }
                let node = TreeElement::new_node(a, b);
                next.push(node);
                proof {
                    // The new node's digest is the pairwise combination that
                    // one level_up round prescribes for the first two digests.
                    assert(node.spec_digest() == node_hash_of(a.spec_digest(), b.spec_digest()));
                    assert(digests_of(lv)[0] == a.spec_digest());
                    assert(digests_of(lv)[1] == b.spec_digest());
                    assert(digests_of(lv).len() == lv.len());
                    assert(level_up(digests_of(lv)) == seq![
                        node_hash_of(digests_of(lv)[0], digests_of(lv)[1]),
                    ] + level_up(digests_of(lv).skip(2)));
                    assert(digests_of(lv).skip(2) =~= digests_of(level@));
                    assert(digests_of(next@) =~= nx.map(
                        |i: int, e: TreeElement<T>| e.spec_digest(),
                    ).push(node.spec_digest()));
                    assert(digests_of(next@) =~= digests_of(nx) + seq![node.spec_digest()]);
                    assert((digests_of(nx) + seq![node.spec_digest()]) + level_up(digests_of(level@))
                        =~= digests_of(nx) + (seq![node.spec_digest()] + level_up(
                        digests_of(level@),
                    )));
                    // Leaf bytes: the node holds exactly the leaves of its two
                    // children, so the concatenation is preserved.
                    lemma_leaves_of_push(nx, node);
                    assert(leaves_of(lv) == lv[0].leaf_bytes() + leaves_of(lv.drop_first()));
                    assert(lv.drop_first()[0] == lv[1]);
                    assert(leaves_of(lv.drop_first()) == lv[1].leaf_bytes() + leaves_of(
                        lv.drop_first().drop_first(),
                    ));
                    assert(lv.drop_first().drop_first() =~= lv.skip(2));
                    assert(leaves_of(next@) == leaves_of(nx) + (a.leaf_bytes() + b.leaf_bytes()));
                    assert((leaves_of(nx) + (a.leaf_bytes() + b.leaf_bytes())) + leaves_of(level@)
                        =~= leaves_of(nx) + (a.leaf_bytes() + (b.leaf_bytes() + leaves_of(
                        level@,
                    ))));
                    assert(leaves_of(nx) + (a.leaf_bytes() + (b.leaf_bytes() + leaves_of(level@)))
                        =~= leaves_of(nx) + leaves_of(lv));
                    assert(all_well_formed(next@)) by {
                        assert(forall|i: int| 0 <= i < nx.len() ==> next@[i] == nx[i]);
                        assert(next@[nx.len() as int] == node);
                    }
                    assert(all_well_formed(level@)) by {
                        assert(forall|i: int| 0 <= i < level@.len() ==> level@[i] == lv[i + 2]);
                    }
                }
            }
            if level.len() == 1 {
                let ghost lv = level@;
                let ghost nx = next@;
                let last = level.remove(0);
                next.push(last);
                proof {
                    assert(last == lv[0]);
                    assert(level@ =~= Seq::<TreeElement<T>>::empty());
                    assert(digests_of(lv).len() == 1);
                    assert(level_up(digests_of(lv)) == digests_of(lv));
                    assert(digests_of(next@) =~= digests_of(nx) + digests_of(lv));
                    lemma_leaves_of_push(nx, last);
                    assert(leaves_of(lv) == lv[0].leaf_bytes() + leaves_of(lv.drop_first()));
                    assert(lv.drop_first() =~= Seq::<TreeElement<T>>::empty());
                    assert(lv[0].leaf_bytes() + leaves_of(lv.drop_first()) =~= lv[0].leaf_bytes());
                    assert(leaves_of(next@) == leaves_of(nx) + leaves_of(lv));
                    assert(all_well_formed(next@)) by {
                        assert(forall|i: int| 0 <= i < nx.len() ==> next@[i] == nx[i]);
                        assert(next@[nx.len() as int] == last);
                    }
                }
            } else {
                proof {
                    assert(level@.len() == 0);
                    assert(digests_of(level@).len() == 0);
                    assert(level_up(digests_of(level@)) =~= Seq::<Seq<u8>>::empty());
                    assert(digests_of(next@) + level_up(digests_of(level@)) =~= digests_of(next@));
                    assert(leaves_of(level@) =~= Seq::<Seq<u8>>::empty());
                    assert(leaves_of(next@) + leaves_of(level@) =~= leaves_of(next@));
                }
            }
            level = next;
            proof {
                // One round was completed: the digests of the new level are
                // exactly one level_up step over the old, so the root digest
                // they determine is unchanged.
                assert(digests_of(level@) == level_up(digests_of(prev)));
                assert(digests_of(prev).len() == prev.len());
                assert(root_digest_of(digests_of(prev)) == root_digest_of(
                    level_up(digests_of(prev)),
                ));
                assert(digests_of(level@).len() == (prev.len() + 1) / 2);
                assert(level@.len() == digests_of(level@).len());
            }
        }

        let ghost lv = level@;
        let root = level.remove(0);
        proof {
            assert(root == lv[0]);
            assert(root.well_formed());
            assert(digests_of(lv).len() == 1);
            assert(root_digest_of(digests_of(lv)) == digests_of(lv)[0]);
            assert(digests_of(lv)[0] == root.spec_digest());
            assert(leaves_of(lv) == lv[0].leaf_bytes() + leaves_of(lv.drop_first()));
            assert(lv.drop_first() =~= Seq::<TreeElement<T>>::empty());
            assert(lv[0].leaf_bytes() + leaves_of(lv.drop_first()) =~= lv[0].leaf_bytes());
        }
        Ok(MerkleTree { root })
    }

    /// Returns the root element's digest.
    pub fn root_hash(&self) -> (r: &[u8])
        ensures
            r@ == self.root_digest(),
    {
        proof {
            use_type_invariant(self);
            self.root.lemma_wf_stored_is_digest();
        }
        self.root.hash()
    }

    /// Searches the tree for a leaf whose value bytes equal the target's,
    /// walking depth-first from the root and taking the leftmost match. On
    /// success the returned proof carries the value and, leaf to root, each
    /// sibling digest met on the way up, and folding the leaf digest of the
    /// value through that path rebuilds the root digest. Returns `None`
    /// exactly when no leaf matches.
    pub fn get_proof(&self, value: T) -> (r: Option<Proof<T>>)
        ensures
            r is Some <==> self.leaf_bytes().contains(value.bytes()),
            r matches Some(p) ==> p.value_bytes() == value.bytes() && p.path() == self.path_for(
                value.bytes(),
            ) && fold_path(leaf_hash_of(value.bytes()), p.path()) == self.root_digest(),
    {
        proof {
            use_type_invariant(self);
            self.root.lemma_contains_leaf_bytes(value.bytes());
        }
        let value_bytes = value.get_bytes();
        match search_path(&self.root, value_bytes.as_slice()) {
            Some(steps) => {
                proof {
                    lemma_inclusion_soundness(self.root, value.bytes());
                }
                Some(Proof::from_parts(value, steps))
            },
            None => None,
        }
    }
}

} // verus!
