//! Calls into std and into the `base64` crate that the codec relies on.
use vstd::prelude::*;
use vstd::utf8::*;

verus! {

#[verifier::external_type_specification]
#[verifier::external_body]
pub struct ExFromUtf8Error(std::string::FromUtf8Error);

#[verifier::external_type_specification]
#[verifier::external_body]
pub struct ExDecodeError(base64::DecodeError);

/// What base64's URL-safe engine with padding writes for the given bytes.
pub uninterp spec fn url_safe_b64(b: Seq<u8>) -> Seq<char>;

/// What base64's URL-safe engine with padding reads from the given text, if it accepts it.
pub uninterp spec fn url_safe_b64_decoded(s: Seq<char>) -> Option<Seq<u8>>;

/// A character that may occur in URL-safe base64 text with padding.
pub open spec fn is_url_safe_b64_char(c: char) -> bool {
    ('A' <= c && c <= 'Z') || ('a' <= c && c <= 'z') || ('0' <= c && c <= '9') || c == '-' || c
        == '_' || c == '='
}

/// Relies on `String::from_utf8`: it accepts the UTF-8 encoding of any characters, and
/// the string it returns has the given bytes as its UTF-8 encoding.
#[verifier::external_body]
pub(crate) fn string_from_utf8(v: Vec<u8>) -> (r: Result<String, std::string::FromUtf8Error>)
    ensures
        r is Ok ==> encode_utf8(r->Ok_0@) == v@,
        forall|t: Seq<char>| #[trigger] encode_utf8(t) == v@ ==> r is Ok,
{
    String::from_utf8(v)
}

/// Relies on `Engine::encode` of `base64::engine::general_purpose::URL_SAFE`: its text
/// depends on the bytes alone.
#[verifier::external_body]
pub(crate) fn b64_encode(b: &[u8]) -> (r: String)
    ensures
        r@ == url_safe_b64(b@),
{
    base64::Engine::encode(&base64::engine::general_purpose::URL_SAFE, b)
}

/// Relies on `Engine::decode` of `base64::engine::general_purpose::URL_SAFE`: it reads
/// back exactly the bytes that `encode` wrote, and refuses a character outside the
/// URL-safe alphabet and `=`.
#[verifier::external_body]
pub(crate) fn b64_decode(s: &str) -> (r: Result<Vec<u8>, base64::DecodeError>)
    ensures
        r is Ok <==> url_safe_b64_decoded(s@) is Some,
        r is Ok ==> r->Ok_0@ == url_safe_b64_decoded(s@)->0,
        forall|b: Seq<u8>| #[trigger] url_safe_b64(b) == s@ ==> r is Ok && r->Ok_0@ == b,
        (exists|i: int| 0 <= i < s@.len() && !is_url_safe_b64_char(#[trigger] s@[i])) ==> r is Err,
{
    base64::Engine::decode(&base64::engine::general_purpose::URL_SAFE, s.as_bytes())
}

} // verus!
