use vstd::prelude::*;

verus! {

/// The lowercase hexadecimal SHA-256 digest of a string; a fixed function
/// of the input alone.
pub uninterp spec fn sha256_hex_of(s: Seq<char>) -> Seq<char>;

/// Relies on rust-crypto's `Sha256` with `Digest::{input_str, result_str}`:
/// the hex digest of the input.
#[verifier::external_body]
pub fn compute_hash(input: &str) -> (r: String)
    ensures
        r@ == sha256_hex_of(input@),
{
    let mut hasher = crypto::sha2::Sha256::new();
    crypto::digest::Digest::input_str(&mut hasher, input);
    crypto::digest::Digest::result_str(&mut hasher)
}

} // verus!
