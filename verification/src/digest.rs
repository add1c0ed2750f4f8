//! Content digests of downloaded pages.
use vstd::prelude::*;
use sha2::Digest;

verus! {

/// The lower-case hexadecimal SHA-256 digest of the UTF-8 bytes of `s`.
pub uninterp spec fn spec_sha256_hex(s: Seq<char>) -> Seq<char>;

/// `sha2::Sha256::digest` of the UTF-8 bytes of `s`, written as lower-case hexadecimal
/// (`{:x}`); the contract names the result and says nothing more of it.
#[verifier::external_body]
pub(crate) fn sha256_hex(s: &str) -> (r: String)
    ensures
        r@ == spec_sha256_hex(s@),
{
    format!("{:x}", sha2::Sha256::digest(s.as_bytes()))
}

} // verus!
