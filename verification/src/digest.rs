//! The content digest primitive. The digest itself comes from an outside
//! hashing library; everything stated about it here is that it is a pure
//! function of the input bytes, sixteen bytes long.

use vstd::prelude::*;

verus! {

/// The digest of a byte sequence, as the outside hashing library
/// computes it: the same bytes give the same digest, on every run and
/// every machine.
pub uninterp spec fn md5_of(data: Seq<u8>) -> Seq<u8>;

/// Relies on crypto_hash::digest with the MD5 algorithm: the digest
/// depends on the input bytes alone and is sixteen bytes long.
#[verifier::external_body]
fn md5_digest(data: &[u8]) -> (r: Vec<u8>)
    ensures
        r@ == md5_of(data@),
        r@.len() == 16,
{
    crypto_hash::digest(crypto_hash::Algorithm::MD5, data)
}

/// The content-identity digest of one file's bytes: what a hash worker
/// computes for a task once the bytes are read.
pub fn content_digest(data: &[u8]) -> (r: Vec<u8>)
    ensures
        r@ == md5_of(data@),
        r@.len() == 16,
{
    md5_digest(data)
}

} // verus!
