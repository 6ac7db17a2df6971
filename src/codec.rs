use vstd::prelude::*;

use base64::engine::general_purpose::STANDARD;
use base64::Engine;

verus! {

/// The standard-alphabet, padded base64 text of some bytes.
pub uninterp spec fn base64_text(b: Seq<u8>) -> Seq<char>;

/// The bytes that standard-alphabet, padded base64 text stands for, or
/// `None` where the text is not such base64.
pub uninterp spec fn base64_bytes(s: Seq<char>) -> Option<Seq<u8>>;

/// Relies on base64's `STANDARD.encode`: the padded standard-alphabet text
/// of the bytes, which depends on the bytes alone.
#[verifier::external_body]
pub(crate) fn encode_base64(b: &[u8]) -> (r: String)
    ensures
        r@ == base64_text(b@),
{
    STANDARD.encode(b)
}

/// Relies on base64's `STANDARD.decode`: the bytes that padded
/// standard-alphabet text stands for, or an error, depending on the text alone.
#[verifier::external_body]
pub(crate) fn decode_base64(s: &str) -> (r: Option<Vec<u8>>)
    ensures
        r matches Some(v) ==> base64_bytes(s@) == Some(v@),
        r is None ==> base64_bytes(s@) is None,
{
    STANDARD.decode(s).ok()
}

} // verus!
