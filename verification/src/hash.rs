//! Fresh identifiers: the SHA-1 digest of 64 random bytes, in text form.

use crate::utilities::{bytes_to_sha1, id_text, is_node_id};
use rand::Rng;
use sha1::{Digest, Sha1};
use vstd::prelude::*;

verus! {

/// The SHA-1 digest of `data`, as `Sha1::digest` of the `sha1` crate computes it.
pub uninterp spec fn sha1_of(data: Seq<u8>) -> Seq<u8>;

/// `Digest::digest` of the `sha1` crate for `Sha1`. Trusted: the 20 bytes
/// that come back are the digest named by [`sha1_of`], a function of the
/// data alone.
#[verifier::external_body]
pub(crate) fn sha1_digest(data: &[u8]) -> (digest: [u8; 20])
    ensures
        digest@ == sha1_of(data@),
{
    Sha1::digest(data).into()
}

/// `Rng::fill` of the `rand` crate on the generator of `thread_rng`: 64
/// bytes of which nothing is promised. Both calls panic where the entropy
/// source of the system fails, and only there.
#[verifier::external_body]
pub(crate) fn random_bytes() -> [u8; 64] {
    let mut bytes: [u8; 64] = [0; 64];
    rand::thread_rng().fill(&mut bytes[..]);
    bytes
}

/// The SHA-1 digest of `data` as an identifier in text form.
pub fn sha1_to_string(data: &[u8]) -> (id: String)
    ensures
        id@ == id_text(sha1_of(data@)),
        is_node_id(id@),
{
    let digest = sha1_digest(data);
    bytes_to_sha1(&digest)
}

/// A fresh identifier: the digest of 64 random bytes, in text form.
/// Whatever the bytes are, the result is an identifier.
pub fn random_sha1_to_string() -> (id: String)
    ensures
        is_node_id(id@),
        exists|bytes: Seq<u8>| bytes.len() == 64 && id@ == id_text(#[trigger] sha1_of(bytes)),
{
    let bytes = random_bytes();
    let id = sha1_to_string(bytes.as_slice());
    assert(bytes@.len() == 64 && id@ == id_text(sha1_of(bytes@)));
    id
}

} // verus!
