//! The cryptographic digest behind tamper evidence.
//!
//! The digest itself comes from an outside implementation of SHA-256; the
//! library names its result and builds every contract on that name, so that
//! everything around the call is verified.

use vstd::prelude::*;

verus! {

/// The SHA-256 digest of the UTF-8 bytes of `s`, rendered as lowercase hex.
/// The algorithm is not restated here; every contract speaks of this name.
pub uninterp spec fn sha256_hex_of(s: Seq<char>) -> Seq<char>;

/// Relies on sha2's `Sha256` (with generic-array's `LowerHex` rendering, two
/// digits per byte): the 32-byte digest of the UTF-8 bytes of `s` as 64
/// lowercase hex digits. The result depends on the characters of `s` alone.
#[verifier::external_body]
pub(crate) fn sha256_hex(s: &str) -> (r: String)
    ensures
        r@ == sha256_hex_of(s@),
        r@.len() == 64,
{
    let mut hasher = <sha2::Sha256 as sha2::Digest>::new();
    sha2::Digest::update(&mut hasher, s.as_bytes());
    format!("{:x}", sha2::Digest::finalize(hasher))
}

} // verus!
