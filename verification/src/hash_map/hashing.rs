use std::collections::hash_map::DefaultHasher;
use std::hash::Hasher;
use vstd::bytes::{spec_u64_to_le_bytes, u64_to_le_bytes};
use vstd::prelude::*;
use vstd::std_specs::hash::DefaultHasherAdditionalSpecFns;
use vstd::utf8::encode_utf8;

verus! {

/// What a fresh hasher of the standard library gives for the bytes, written
/// to it in one piece.
pub open spec fn hash_of_bytes(bytes: Seq<u8>) -> u64 {
    DefaultHasher::spec_finish(seq![bytes])
}

/// Hashes the bytes with a fresh hasher of the standard library.
pub fn hash_bytes(bytes: &[u8]) -> (h: u64)
    ensures
        h == hash_of_bytes(bytes@),
{
    let mut hasher = DefaultHasher::new();
    hasher.write(bytes);
    proof {
        assert(hasher@ =~= seq![bytes@]);
    }
    hasher.finish()
}

/// A key of a hash map. Its view is what the key stands for: two keys are
/// the same key exactly when their views are equal, and the hash goes by the
/// view alone.
pub trait HashKey: View + Sized {
    /// The hash of a key with the given view.
    spec fn hash_code(id: Self::V) -> u64;

    /// The hash of the key.
    fn digest(&self) -> (h: u64)
        ensures
            h == Self::hash_code(self@),
    ;

    /// Whether the two keys are the same key.
    fn same(&self, other: &Self) -> (r: bool)
        ensures
            r == (self@ == other@),
    ;
}

impl HashKey for u32 {
    open spec fn hash_code(id: u32) -> u64 {
        hash_of_bytes(spec_u64_to_le_bytes(id as u64))
    }

    fn digest(&self) -> (h: u64) {
        let bytes = u64_to_le_bytes(*self as u64);
        hash_bytes(bytes.as_slice())
    }

    fn same(&self, other: &Self) -> (r: bool) {
        *self == *other
    }
}

impl HashKey for u64 {
    open spec fn hash_code(id: u64) -> u64 {
        hash_of_bytes(spec_u64_to_le_bytes(id))
    }

    fn digest(&self) -> (h: u64) {
        let bytes = u64_to_le_bytes(*self);
        hash_bytes(bytes.as_slice())
    }

    fn same(&self, other: &Self) -> (r: bool) {
        *self == *other
    }
}

impl HashKey for String {
    open spec fn hash_code(id: Seq<char>) -> u64 {
        hash_of_bytes(encode_utf8(id))
    }

    fn digest(&self) -> (h: u64) {
        hash_bytes(self.as_str().as_bytes())
    }

    fn same(&self, other: &Self) -> (r: bool) {
        *self == *other
    }
}

} // verus!
