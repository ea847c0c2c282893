use vstd::prelude::*;

use crate::bytes::Bytes;
use crate::repr_bytes::ReprBytes;

verus! {

/// A BLAKE3 hash, which Verus sees as an opaque value.
#[verifier::external_type_specification]
#[verifier::external_body]
pub struct ExHash(blake3::Hash);

/// Relies on `blake3::Hash::as_bytes`: it hands out the 32 bytes that the
/// hash holds; nothing more is promised of them.
#[verifier::external_body]
fn hash_bytes(h: &blake3::Hash) -> [u8; 32] {
    *h.as_bytes()
}

impl From<blake3::Hash> for Bytes<32> {
    /// The 32 bytes of a BLAKE3 hash.
    fn from(hash: blake3::Hash) -> (r: Self) {
        Bytes::from_bytes(hash_bytes(&hash))
    }
}

impl vstd::std_specs::convert::FromSpecImpl<blake3::Hash> for Bytes<32> {
    open spec fn obeys_from_spec() -> bool {
        false
    }

    open spec fn from_spec(v: blake3::Hash) -> Self {
        arbitrary()
    }
}

} // verus!
