//! The cryptographic digest that content-addresses blocks.
//!
//! Every block is identified by its SHA-256 digest. The digest itself is
//! computed by an outside crate; this module gives its result a name,
//! `sha256_of`, that the rest of the library's contracts are written over.
//! Nothing in this crate states what `sha256_of` evaluates to on given
//! bytes, only that the executable digest returns it and that it is 32
//! bytes long.

use crypto::digest::Digest;
use vstd::prelude::*;

verus! {

/// The SHA-256 digest of a byte sequence, as a 32-byte sequence.
pub uninterp spec fn sha256_of(bytes: Seq<u8>) -> Seq<u8>;

/// Relies on `crypto::sha2::Sha256` (via `crypto::digest::Digest::input`
/// and `result`): the digest depends on the input bytes alone, and SHA-256
/// produces exactly 32 bytes of output.
#[verifier::external_body]
pub(crate) fn sha256(block: &[u8]) -> (r: Vec<u8>)
    ensures
        r@ == sha256_of(block@),
        r@.len() == 32,
{
    let mut hasher = crypto::sha2::Sha256::new();
    hasher.input(block);
    let mut hash: Vec<u8> = vec![0; 32];
    hasher.result(&mut hash);
    hash
}

} // verus!
