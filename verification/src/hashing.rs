//! Content hashing: every object is keyed by the lowercase hex digest of
//! its bytes.

use vstd::prelude::*;

verus! {

/// The lowercase hex SHA-1 digest of a byte sequence.  The digest is a
/// function of the bytes alone; its value is not axiomatized here.
pub uninterp spec fn sha1_hex_of(bytes: Seq<u8>) -> Seq<char>;

/// Relies on `sha1::Sha1` (through the `Digest` trait): the digest of a
/// byte slice depends on the bytes alone and is 20 bytes long, printed
/// here as 40 hex characters.
#[verifier::external_body]
pub(crate) fn sha1_hex(content: &[u8]) -> (r: String)
    ensures
        r@ == sha1_hex_of(content@),
        r@.len() == 40,
{
    let digest = <sha1::Sha1 as sha1::Digest>::digest(content);
    let mut out = String::new();
    for byte in digest.iter() {
        out.push_str(&format!("{:02x}", byte));
    }
    out
}

/// Hashing is deterministic: equal byte sequences have equal digests.
pub proof fn lemma_hash_deterministic(a: Seq<u8>, b: Seq<u8>)
    requires
        a == b,
    ensures
        sha1_hex_of(a) == sha1_hex_of(b),
{
}

} // verus!
