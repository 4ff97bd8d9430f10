//! Digest computation for leaves and internal nodes.
//!
//! Leaf digests and node digests are domain-separated: a leaf digest hashes
//! the byte `0x00` followed by the value's bytes, while a node digest hashes
//! the byte `0x01` followed by the two child digests in order. No leaf digest
//! can therefore be reinterpreted as a node digest or the other way round.

use sha2::Digest;
use vstd::prelude::*;

verus! {

/// Tag prepended to a value's bytes before hashing them into a leaf digest.
pub const LEAF_TAG: u8 = 0;

/// Tag prepended to two child digests before hashing them into a node digest.
pub const NODE_TAG: u8 = 1;

/// The SHA-256 digest of a byte sequence. The computation itself is done by
/// the `sha2` crate and depends on the input bytes alone, so it is only named
/// here, not defined.
pub uninterp spec fn sha256_of(data: Seq<u8>) -> Seq<u8>;

/// Relies on `sha2::Sha256::digest`: the SHA-256 digest of the given bytes,
/// 32 bytes long and a function of the input bytes alone.
#[verifier::external_body]
fn sha256(data: &Vec<u8>) -> (r: Vec<u8>)
    ensures
        r@ == sha256_of(data@),
        r@.len() == 32,
{
    sha2::Sha256::digest(data.as_slice()).to_vec()
}

/// The digest of a leaf holding a value with the given bytes.
pub open spec fn leaf_hash_of(data: Seq<u8>) -> Seq<u8> {
    sha256_of(seq![LEAF_TAG] + data)
}

/// The digest of an internal node over two child digests, in order: swapping
/// the children changes the input of the hash and so, barring collisions, the
/// digest.
pub open spec fn node_hash_of(left: Seq<u8>, right: Seq<u8>) -> Seq<u8> {
    sha256_of(seq![NODE_TAG] + left + right)
}

/// Appends all bytes of `src` to `dst`, in order.
fn push_all(dst: &mut Vec<u8>, src: &[u8])
    ensures
        final(dst)@ == old(dst)@ + src@,
{
    let mut i: usize = 0;
    while i < src.len()
        invariant
            i <= src@.len(),
            dst@ == old(dst)@ + src@.take(i as int),
        decreases src@.len() - i,
    {
        dst.push(src[i]);
        proof {
            assert(src@.take(i as int).push(src@[i as int]) =~= src@.take(i + 1 as int));
            assert(dst@ =~= old(dst)@ + src@.take(i + 1 as int));
        }
        i = i + 1;
    }
    proof {
        assert(src@.take(i as int) =~= src@);
    }
}

/// Computes the digest of a leaf whose value has the given bytes.
pub fn hash_leaf_data(data: &[u8]) -> (r: Vec<u8>)
    ensures
        r@ == leaf_hash_of(data@),
{
    let mut buf: Vec<u8> = Vec::new();
    buf.push(LEAF_TAG);
    push_all(&mut buf, data);
    proof {
        assert(buf@ =~= seq![LEAF_TAG] + data@);
    }
    sha256(&buf)
}

/// Computes the digest of an internal node over two child digests, in order.
pub fn hash_node_data(left: &[u8], right: &[u8]) -> (r: Vec<u8>)
    ensures
        r@ == node_hash_of(left@, right@),
{
    let mut buf: Vec<u8> = Vec::new();
    buf.push(NODE_TAG);
    push_all(&mut buf, left);
    push_all(&mut buf, right);
    proof {
        assert(buf@ =~= seq![NODE_TAG] + left@ + right@);
    }
    sha256(&buf)
}

/// Compares two byte strings for exact byte-for-byte equality.
pub(crate) fn bytes_equal(a: &[u8], b: &[u8]) -> (r: bool)
    ensures
        r == (a@ == b@),
{
    if a.len() != b.len() {
        return false;
    }
    let mut i: usize = 0;
    while i < a.len()
        invariant
            i <= a@.len(),
            a@.len() == b@.len(),
            forall|j: int| 0 <= j < i ==> a@[j] == b@[j],
        decreases a@.len() - i,
    {
        if a[i] != b[i] {
            return false;
        }
        i = i + 1;
    }
    proof {
        assert(a@ =~= b@);
    }
    true
}

} // verus!
