use vstd::prelude::*;

verus! {

/// The 256-bit content digest of a byte sequence, as the BLAKE3 hash
/// function defines it. The digest of a blob is its content address.
pub uninterp spec fn blake3_of(data: Seq<u8>) -> Seq<u8>;

/// Relies on blake3::hash: a fixed 32-byte digest for each input, a function
/// of the input bytes alone.
#[verifier::external_body]
pub fn blob_digest(value: &[u8]) -> (r: [u8; 32])
    ensures
        r@ == blake3_of(value@),
{
    *blake3::hash(value).as_bytes()
}

} // verus!
