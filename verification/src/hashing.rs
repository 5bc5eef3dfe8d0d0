//! The SHA-1 digest that keys the object store and seals the index.

use sha1::Digest;
use vstd::prelude::*;

verus! {

/// The 20-byte SHA-1 digest of a byte sequence. The digest of an object's
/// canonical bytes is the object's id; the digest of an index's preceding
/// bytes is its trailer.
pub uninterp spec fn sha1_of(bytes: Seq<u8>) -> Seq<u8>;

/// Relies on sha1::Sha1 through digest::Digest::digest: the 20-byte SHA-1
/// digest, a function of the input bytes alone.
#[verifier::external_body]
pub(crate) fn sha1_digest(bytes: &[u8]) -> (r: Vec<u8>)
    ensures
        r@ == sha1_of(bytes@),
        r@.len() == 20,
{
    sha1::Sha1::digest(bytes).to_vec()
}

} // verus!
