//! Trusted boundary: the few outside calls the library relies on, each with
//! the contract its crate's source supports, and names for results whose
//! values the library does not restate.
use vstd::prelude::*;
use vstd::utf8::{decode_utf8, encode_utf8, valid_utf8};

verus! {

#[verifier::external_type_specification]
#[verifier::external_body]
pub struct ExFromUtf8Error(std::string::FromUtf8Error);

/// Relies on std's String::from_utf8: succeeds exactly on valid UTF-8 and
/// returns the string those bytes encode.
pub assume_specification [ String::from_utf8 ](v: Vec<u8>) -> (r: Result<
    String,
    std::string::FromUtf8Error,
>)
    ensures
        r is Ok <==> valid_utf8(v@),
        r matches Ok(s) ==> encode_utf8(s@) == v@ && s@ == decode_utf8(v@),
;

/// The raw HMAC-SHA256 tag over `message` under `secret`: a function of its
/// arguments alone.
pub uninterp spec fn hmac_tag(message: Seq<u8>, secret: Seq<char>) -> Seq<u8>;

/// The signature segment of a token: the tag in base64url without padding.
pub open spec fn mac_of(message: Seq<u8>, secret: Seq<char>) -> Seq<u8> {
    crate::b64::b64_of(hmac_tag(message, secret))
}

/// Relies on jsonwebtoken's crypto::sign with an HS256 key built by
/// EncodingKey::from_secret: it base64url-encodes (RFC 4648, URL-safe, no
/// padding) the HMAC-SHA256 tag of the message, and for this algorithm and
/// key kind its error paths are unreachable in the crate's source. The call
/// dispatches through jsonwebtoken's process-wide CryptoProvider; nothing in
/// this program installs one, so the provider fixed by the crate's features
/// (the RustCrypto hmac/sha2 implementation) is the one that answers.
#[verifier::external_body]
pub fn hmac_sign_b64(message: &Vec<u8>, secret: &str) -> (r: Vec<u8>)
    ensures
        r@ == crate::b64::b64_of(hmac_tag(message@, secret@)),
{
    let key = jsonwebtoken::EncodingKey::from_secret(secret.as_bytes());
    match jsonwebtoken::crypto::sign(message.as_slice(), &key, jsonwebtoken::Algorithm::HS256) {
        Ok(tag) => tag.into_bytes(),
        Err(_) => Vec::new(),
    }
}

/// Whether bcrypt accepts `password` against the salted `hash`: determined by
/// the two arguments, since the salt is read from the hash itself.
pub uninterp spec fn bcrypt_accepts(password: Seq<char>, hash: Seq<char>) -> bool;

/// Whether `hash` is a well-formed bcrypt hash (parsable fields, cost in
/// range): the one thing bcrypt's verification can fail on, and a function
/// of the hash alone.
pub uninterp spec fn bcrypt_hash_parses(hash: Seq<char>) -> bool;

/// Relies on bcrypt::verify: recomputes the salted hash and compares. Its
/// only error is a hash that does not parse (the password never causes one,
/// since this entry point truncates long passwords); that case is None here.
#[verifier::external_body]
pub fn bcrypt_verify(password: &str, hash: &str) -> (r: Option<bool>)
    ensures
        r is Some <==> bcrypt_hash_parses(hash@),
        r matches Some(b) ==> b == bcrypt_accepts(password@, hash@),
{
    bcrypt::verify(password.as_bytes(), hash).ok()
}

/// Relies on chrono's Utc::now: seconds since the epoch. Nothing is promised
/// of the clock's reading; on a system clock before the epoch the call
/// itself aborts the process, which matches the design that a clock fault is
/// fatal at startup, not handled per request.
#[verifier::external_body]
pub fn current_timestamp_secs() -> (r: i64) {
    chrono::Utc::now().timestamp()
}

} // verus!
