//! The MD5 digest of a string, as lower-case hexadecimal text.

use crypto::digest::Digest;
use crypto::md5::Md5;
use vstd::prelude::*;

verus! {

/// The MD5 digest of a string's UTF-8 bytes, written as hexadecimal text.
pub uninterp spec fn md5_hex(input: Seq<char>) -> Seq<char>;

/// Feeds `input` to a fresh `crypto::md5::Md5` with `Digest::input_str` and
/// reads the digest with `Digest::result_str`. Nothing but the input goes
/// into the hasher, so what comes back is a function of the input: the
/// contract gives it the name `md5_hex` and claims no more of it.
#[verifier::external_body]
fn md5_result_str(input: &str) -> (digest: String)
    ensures
        digest@ == md5_hex(input@),
{
    let mut hasher = Md5::new();
    hasher.input_str(input);
    hasher.result_str()
}

/// The MD5 digest of `password` as hexadecimal text.
pub fn hash(password: &str) -> (digest: String)
    ensures
        digest@ == md5_hex(password@),
{
    md5_result_str(password)
}

} // verus!
