//! The capability required of values stored in the tree.

use vstd::prelude::*;
use vstd::string::StrSliceExecFns;

verus! {

/// A value that can be stored in the tree: it serializes itself to bytes,
/// deterministically and without side effects. The byte form is all the tree
/// ever hashes or compares, so two values with equal bytes are the same value
/// as far as the tree is concerned.
pub trait Hashable: Sized {
    /// The value's byte representation, as a mathematical sequence.
    spec fn bytes(&self) -> Seq<u8>;

    /// Returns the value's byte representation.
    fn get_bytes(&self) -> (r: Vec<u8>)
        ensures
            r@ == self.bytes(),
    ;
}

impl Hashable for String {
    /// The UTF-8 encoding of the string's characters.
    open spec fn bytes(&self) -> Seq<u8> {
        vstd::utf8::encode_utf8(self@)
    }

    fn get_bytes(&self) -> (r: Vec<u8>) {
        self.as_str().as_bytes_vec()
    }
}

} // verus!
