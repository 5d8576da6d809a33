use vstd::prelude::*;

verus! {

/// The SHA-256 digest of a byte sequence, named here and computed only by
/// the sha2 crate.
pub uninterp spec fn sha256_of(data: Seq<u8>) -> Seq<u8>;

/// Relies on sha2's Sha256 through the Digest trait: the 32-byte digest is a
/// function of the input bytes alone.
#[verifier::external_body]
fn sha256_digest(data: &[u8]) -> (r: [u8; 32])
    ensures
        r@ == sha256_of(data@),
{
    <sha2::Sha256 as sha2::Digest>::digest(data).into()
}

/// The SHA-256 digest of the given bytes, in a fixed 32-byte container.
pub fn create_hash_bytes(data: &[u8]) -> (container: [u8; 32])
    ensures
        container@ == sha256_of(data@),
{
    sha256_digest(data)
}

} // verus!
