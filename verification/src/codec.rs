//! The token codec: signing claims into a three-segment token
//! (header.payload.signature, each segment base64url) and verifying such a
//! token back into claims, rejecting anything tampered with or expired.
use crate::b64::{b64_decode, b64_decode_of, b64_encode, b64_of};
use crate::claims::{Claims, ClaimsView, now_or_zero};
use crate::copy_range;
use crate::ext::{hmac_sign_b64, hmac_tag, mac_of};
use crate::payload::{
    json_of, lemma_payload_complete, lemma_payload_sound, match_lit, parse_payload, payload_json,
    payload_parse, push_all, starts_with,
};
use vstd::prelude::*;
use vstd::string::StrSliceExecFns;
use vstd::utf8::{encode_utf8, valid_utf8};

verus! {

/// Why signing or verification failed.
#[derive(Debug, Clone, Copy, PartialEq, Eq, Structural)]
pub enum AuthError {
    /// The token does not parse into the expected structure.
    Malformed,
    /// The embedded signature does not match the recomputed one.
    InvalidSignature,
    /// The current time is at or past the token's expiry.
    Expired,
    /// An encoding fault during issuance.
    SigningError,
}

/// The JSON header naming the signing algorithm:
/// `{"typ":"JWT","alg":"HS256"}`.
pub open spec fn header_json() -> Seq<u8> {
    seq![
        123u8, 34u8, 116u8, 121u8, 112u8, 34u8, 58u8, 34u8, 74u8, 87u8, 84u8, 34u8, 44u8, 34u8,
        97u8, 108u8, 103u8, 34u8, 58u8, 34u8, 72u8, 83u8, 50u8, 53u8, 54u8, 34u8, 125u8,
    ]
}

/// The header segment as it stands in every token.
pub open spec fn header_b64() -> Seq<u8> {
    b64_of(header_json())
}

/// The bytes the signature covers: header segment, dot, payload segment.
pub open spec fn signing_input_of(p64: Seq<u8>) -> Seq<u8> {
    (header_b64() + seq![46u8]) + p64
}

/// A whole token assembled from a payload segment and a signature segment.
pub open spec fn assembled(p64: Seq<u8>, sig: Seq<u8>) -> Seq<u8> {
    (header_b64() + seq![46u8]) + (p64 + (seq![46u8] + sig))
}

/// The one token that signing claims `c` under `secret` produces.
pub open spec fn token_of(c: ClaimsView, secret: Seq<char>) -> Seq<u8> {
    assembled(
        b64_of(json_of(c)),
        mac_of(signing_input_of(b64_of(json_of(c))), secret),
    )
}

/// Index of the first dot in `s`.
pub open spec fn find_dot(s: Seq<u8>) -> Option<int>
    decreases s.len(),
{
    if s.len() == 0 {
        None
    } else if s[0] == 46 {
        Some(0)
    } else {
        match find_dot(s.skip(1)) {
            Some(i) => Some(1 + i),
            None => None,
        }
    }
}

pub open spec fn has_dot(s: Seq<u8>) -> bool {
    exists|i: int| 0 <= i < s.len() && s[i] == 46
}

proof fn lemma_find_dot_first(s: Seq<u8>, k: int)
    requires
        0 <= k < s.len(),
        s[k] == 46,
        forall|i: int| 0 <= i < k ==> s[i] != 46,
    ensures
        find_dot(s) == Some(k),
    decreases k,
{
    if k == 0 {
    } else {
        assert(forall|i: int| 0 <= i < k - 1 ==> s.skip(1)[i] == s[i + 1]);
        assert(s.skip(1)[k - 1] == s[k]);
        lemma_find_dot_first(s.skip(1), k - 1);
    }
}

proof fn lemma_find_dot_none(s: Seq<u8>)
    requires
        forall|i: int| 0 <= i < s.len() ==> s[i] != 46,
    ensures
        find_dot(s) is None,
    decreases s.len(),
{
    if s.len() > 0 {
        assert(forall|i: int| 0 <= i < s.len() - 1 ==> s.skip(1)[i] == s[i + 1]);
        lemma_find_dot_none(s.skip(1));
    }
}

proof fn lemma_find_dot_sound(s: Seq<u8>)
    ensures
        find_dot(s) matches Some(d) ==> 0 <= d < s.len() && s[d] == 46 && forall|i: int|
            0 <= i < d ==> s[i] != 46,
    decreases s.len(),
{
    if find_dot(s) is Some && s.len() > 0 && s[0] != 46 {
        lemma_find_dot_sound(s.skip(1));
        let d = find_dot(s).unwrap();
        assert forall|i: int| 0 <= i < d implies s[i] != 46 by {
            if i >= 1 {
                assert(s.skip(1)[i - 1] == s[i]);
            }
        }
        assert(s.skip(1)[d - 1] == s[d]);
    }
}

/// Splits a token into payload and signature segments: the header literal,
/// then the payload up to the next dot, then the signature, which may hold
/// no further dot.
pub open spec fn split_spec(t: Seq<u8>) -> Option<(Seq<u8>, Seq<u8>)> {
    let pre = header_b64() + seq![46u8];
    if !starts_with(t, pre) {
        None
    } else {
        let rest = t.skip(pre.len() as int);
        match find_dot(rest) {
            None => None,
            Some(d) => {
                if has_dot(rest.skip(d + 1)) {
                    None
                } else {
                    Some((rest.take(d), rest.skip(d + 1)))
                }
            },
        }
    }
}

/// What verification returns on a token under a secret at time `now`.
/// Acceptance is strict: only this crate's canonical rendering verifies —
/// the exact header literal, field order, compact separators, `\u00xx`
/// escapes and canonical base64url. Self-minted tokens are always in that
/// form; a correctly signed token whose payload renders the same claims in
/// another way is `Malformed`. Expiry is exact, `now >= exp`, with no
/// leeway.
pub open spec fn verify_spec(t: Seq<u8>, secret: Seq<char>, now: u64) -> Result<
    ClaimsView,
    AuthError,
> {
    match split_spec(t) {
        None => Err(AuthError::Malformed),
        Some(ps) => match b64_decode_of(ps.0) {
            None => Err(AuthError::Malformed),
            Some(pj) => match payload_parse(pj) {
                None => Err(AuthError::Malformed),
                Some(cv) => if ps.1 != mac_of(signing_input_of(ps.0), secret) {
                    Err(AuthError::InvalidSignature)
                } else if now >= cv.exp {
                    Err(AuthError::Expired)
                } else {
                    Ok(cv)
                },
            },
        },
    }
}

proof fn lemma_split_complete(p64: Seq<u8>, sig: Seq<u8>)
    requires
        forall|i: int| 0 <= i < p64.len() ==> p64[i] != 46,
        forall|i: int| 0 <= i < sig.len() ==> sig[i] != 46,
    ensures
        split_spec(assembled(p64, sig)) == Some((p64, sig)),
{
    let pre = header_b64() + seq![46u8];
    let t = assembled(p64, sig);
    let rest = p64 + (seq![46u8] + sig);
    crate::payload::lemma_take_concat(pre, rest);
    assert(starts_with(t, pre)) by {
        assert(t.take(pre.len() as int) == pre);
    }
    assert(t.skip(pre.len() as int) == rest);
    assert(rest[p64.len() as int] == 46) by {
        assert((seq![46u8] + sig)[0] == 46);
    }
    assert(forall|i: int| 0 <= i < p64.len() ==> rest[i] == p64[i]);
    lemma_find_dot_first(rest, p64.len() as int);
    assert(rest.take(p64.len() as int) =~= p64);
    assert(rest.skip(p64.len() as int + 1) =~= sig);
    assert(!has_dot(sig));
}

/// Verifying a token signed with the same secret, before its expiry,
/// returns the claims unchanged.
pub proof fn lemma_token_roundtrip(c: ClaimsView, secret: Seq<char>, now: u64)
    requires
        now < c.exp,
    ensures
        verify_spec(token_of(c, secret), secret, now) == Ok::<ClaimsView, AuthError>(c),
{
    let p64 = b64_of(json_of(c));
    let si = signing_input_of(p64);
    let sig = mac_of(si, secret);
    crate::b64::lemma_b64_no_dot(json_of(c));
    crate::b64::lemma_b64_no_dot(hmac_tag(si, secret));
    lemma_split_complete(p64, sig);
    crate::b64::lemma_b64_roundtrip(json_of(c));
    lemma_payload_complete(c);
}

/// A token signed under one secret does not verify under another, except in
/// the impossible-in-practice case that the two HMAC tags coincide; the
/// failure is a signature mismatch, never a parse error.
pub proof fn lemma_wrong_secret(c: ClaimsView, s1: Seq<char>, s2: Seq<char>, now: u64)
    ensures
        hmac_tag(signing_input_of(b64_of(json_of(c))), s2) != hmac_tag(
            signing_input_of(b64_of(json_of(c))),
            s1,
        ) ==> verify_spec(token_of(c, s1), s2, now) == Err::<ClaimsView, AuthError>(
            AuthError::InvalidSignature,
        ),
{
    let p64 = b64_of(json_of(c));
    let si = signing_input_of(p64);
    let t1 = hmac_tag(si, s1);
    let t2 = hmac_tag(si, s2);
    crate::b64::lemma_b64_no_dot(json_of(c));
    crate::b64::lemma_b64_no_dot(t1);
    lemma_split_complete(p64, mac_of(si, s1));
    crate::b64::lemma_b64_roundtrip(json_of(c));
    lemma_payload_complete(c);
    if t2 != t1 {
        crate::b64::lemma_b64_roundtrip(t1);
        crate::b64::lemma_b64_roundtrip(t2);
        assert(b64_of(t1) != b64_of(t2));
    }
}

/// A token whose payload was replaced after signing fails with a signature
/// mismatch, whatever claims the new payload renders, except in the
/// impossible-in-practice case that the two HMAC tags coincide.
pub proof fn lemma_tampered_payload(c: ClaimsView, c2: ClaimsView, secret: Seq<char>, now: u64)
    ensures
        hmac_tag(signing_input_of(b64_of(json_of(c2))), secret) != hmac_tag(
            signing_input_of(b64_of(json_of(c))),
            secret,
        ) ==> verify_spec(
            assembled(b64_of(json_of(c2)), mac_of(signing_input_of(b64_of(json_of(c))), secret)),
            secret,
            now,
        ) == Err::<ClaimsView, AuthError>(AuthError::InvalidSignature),
{
    let sig = mac_of(signing_input_of(b64_of(json_of(c))), secret);
    let tag1 = hmac_tag(signing_input_of(b64_of(json_of(c))), secret);
    let tag2 = hmac_tag(signing_input_of(b64_of(json_of(c2))), secret);
    crate::b64::lemma_b64_no_dot(json_of(c2));
    crate::b64::lemma_b64_no_dot(tag1);
    lemma_split_complete(b64_of(json_of(c2)), sig);
    crate::b64::lemma_b64_roundtrip(json_of(c2));
    lemma_payload_complete(c2);
    if tag2 != tag1 {
        crate::b64::lemma_b64_roundtrip(tag1);
        crate::b64::lemma_b64_roundtrip(tag2);
        assert(b64_of(tag1) != b64_of(tag2));
    }
}

/// An expired token fails with `Expired`, even though its signature is valid.
pub proof fn lemma_expired(c: ClaimsView, secret: Seq<char>, now: u64)
    requires
        now >= c.exp,
    ensures
        verify_spec(token_of(c, secret), secret, now) == Err::<ClaimsView, AuthError>(
            AuthError::Expired,
        ),
{
    let p64 = b64_of(json_of(c));
    let si = signing_input_of(p64);
    crate::b64::lemma_b64_no_dot(json_of(c));
    crate::b64::lemma_b64_no_dot(hmac_tag(si, secret));
    lemma_split_complete(p64, mac_of(si, secret));
    crate::b64::lemma_b64_roundtrip(json_of(c));
    lemma_payload_complete(c);
}

/// Whatever verifies under a secret is the one token signing those claims
/// under that secret produces.
pub proof fn lemma_verify_sound(t: Seq<u8>, secret: Seq<char>, now: u64)
    ensures
        verify_spec(t, secret, now) matches Ok(cv) ==> t == token_of(cv, secret),
{
    if verify_spec(t, secret, now) is Ok {
        let cv = verify_spec(t, secret, now).unwrap();
        let pre = header_b64() + seq![46u8];
        let rest = t.skip(pre.len() as int);
        let d = find_dot(rest).unwrap();
        let p64 = rest.take(d);
        let sig = rest.skip(d + 1);
        lemma_find_dot_sound(rest);
        crate::payload::lemma_take_skip(t, pre.len() as int);
        crate::payload::lemma_take_skip(rest, d);
        assert(rest.skip(d) =~= seq![46u8] + sig);
        assert(t == pre + (p64 + (seq![46u8] + sig)));
        let pj = b64_decode_of(p64).unwrap();
        crate::b64::lemma_b64_decode_sound(p64);
        lemma_payload_sound(pj);
        assert(p64 == b64_of(json_of(cv)));
        assert(sig == mac_of(signing_input_of(p64), secret));
        assert(t == assembled(p64, sig));
    }
}

fn header_json_vec() -> (r: Vec<u8>)
    ensures
        r@ == header_json(),
{
    let mut v: Vec<u8> = Vec::new();
    v.push(123);
    v.push(34);
    v.push(116);
    v.push(121);
    v.push(112);
    v.push(34);
    v.push(58);
    v.push(34);
    v.push(74);
    v.push(87);
    v.push(84);
    v.push(34);
    v.push(44);
    v.push(34);
    v.push(97);
    v.push(108);
    v.push(103);
    v.push(34);
    v.push(58);
    v.push(34);
    v.push(72);
    v.push(83);
    v.push(50);
    v.push(53);
    v.push(54);
    v.push(34);
    v.push(125);
    proof {
        assert(v@ =~= header_json());
    }
    v
}

/// Signs the claims under the secret. The token's UTF-8 bytes are exactly
/// `token_of(claims@, secret@)`; signing never fails in practice, so the
/// result is always `Ok`.
#[verifier::rlimit(60)]
pub fn create_token(claims: &Claims, secret: &str) -> (r: Result<String, AuthError>)
    ensures
        r is Ok,
        r matches Ok(tok) ==> encode_utf8(tok@) == token_of(claims@, secret@),
{
    let pj = payload_json(claims);
    let p64 = b64_encode(&pj);
    let hj = header_json_vec();
    let mut si = b64_encode(&hj);
    si.push(46);
    proof {
        assert(si@ =~= header_b64() + seq![46u8]);
    }
    push_all(&mut si, &p64);
    proof {
        assert(si@ == signing_input_of(p64@));
    }
    let sig = hmac_sign_b64(&si, secret);
    let mut t = si;
    t.push(46);
    push_all(&mut t, &sig);
    proof {
        assert(t@ =~= assembled(p64@, sig@));
        assert(t@ == token_of(claims@, secret@));
        crate::b64::lemma_b64_no_dot(header_json());
        crate::b64::lemma_b64_no_dot(pj@);
        crate::b64::lemma_b64_no_dot(crate::ext::hmac_tag(si@, secret@));
        assert(forall|i: int|
            0 <= i < t@.len() ==> vstd::utf8::is_leading_byte_width_1(#[trigger] t@[i]));
        assert(t@.subrange(0, 0) =~= Seq::<u8>::empty());
        assert(valid_utf8(Seq::<u8>::empty()));
        assert(vstd::utf8::partial_valid_utf8(t@, 0));
        vstd::utf8::partial_valid_utf8_extend_ascii_block(t@, 0, t@.len() as int);
        assert(t@.subrange(0, t@.len() as int) =~= t@);
        assert(valid_utf8(t@));
    }
    match String::from_utf8(t) {
        Ok(s) => Ok(s),
        Err(_) => Err(AuthError::SigningError),
    }
}

/// Compares two signature segments in constant time for equal lengths: the
/// whole length is always scanned, accumulating a difference flag, so the
/// comparison's duration does not reveal where the first difference lies.
fn sig_eq(a: &Vec<u8>, b: &Vec<u8>) -> (r: bool)
    ensures
        r == (a@ == b@),
{
    if a.len() != b.len() {
        proof {
            assert(a@ != b@);
        }
        return false;
    }
    let mut diff: u8 = 0;
    let mut i: usize = 0;
    while i < a.len()
        invariant
            0 <= i <= a@.len(),
            a@.len() == b@.len(),
            (diff == 0) <==> (forall|j: int| 0 <= j < i ==> a@[j] == b@[j]),
        decreases a@.len() - i,
    {
        let x = a[i];
        let y = b[i];
        proof {
            assert((diff | (x ^ y)) == 0 <==> diff == 0 && x == y) by (bit_vector);
        }
        diff = diff | (x ^ y);
        i += 1;
    }
    if diff == 0 {
        proof {
            assert(a@ =~= b@);
        }
        true
    } else {
        proof {
            let j = choose|j: int| 0 <= j < a@.len() && a@[j] != b@[j];
            assert(a@[j] != b@[j]);
        }
        false
    }
}

fn has_dot_exec(v: &Vec<u8>) -> (r: bool)
    ensures
        r == has_dot(v@),
{
    let mut i: usize = 0;
    while i < v.len()
        invariant
            0 <= i <= v@.len(),
            forall|j: int| 0 <= j < i ==> v@[j] != 46,
        decreases v@.len() - i,
    {
        if v[i] == 46 {
            return true;
        }
        i += 1;
    }
    false
}

/// Verifies and decodes a token given as bytes: exactly the outcome
/// `verify_spec` describes.
#[verifier::loop_isolation(false)]
#[verifier::rlimit(60)]
pub fn verify_token_bytes(t: &Vec<u8>, secret: &str, now: u64) -> (r: Result<Claims, AuthError>)
    ensures
        r matches Ok(c) ==> verify_spec(t@, secret@, now) == Ok::<ClaimsView, AuthError>(c@),
        r matches Err(e) ==> verify_spec(t@, secret@, now) == Err::<ClaimsView, AuthError>(e),
{
    let hj = header_json_vec();
    let mut pre = b64_encode(&hj);
    pre.push(46);
    proof {
        assert(pre@ =~= header_b64() + seq![46u8]);
        assert(t@.skip(0) =~= t@);
    }
    if !match_lit(t, 0, &pre) {
        return Err(AuthError::Malformed);
    }
    let start = pre.len();
    let ghost rest = t@.skip(start as int);
    let mut d: usize = start;
    while d < t.len() && t[d] != 46
        invariant
            start <= d <= t@.len(),
            forall|q: int| 0 <= q < d - start ==> rest[q] != 46,
        decreases t@.len() - d,
    {
        proof {
            assert(rest[d - start as int] == t@[d as int]);
        }
        d += 1;
    }
    if d == t.len() {
        proof {
            lemma_find_dot_none(rest);
        }
        return Err(AuthError::Malformed);
    }
    proof {
        assert(rest[d - start as int] == t@[d as int]);
        lemma_find_dot_first(rest, d - start as int);
    }
    let p64 = copy_range(t, start, d);
    let sig = copy_range(t, d + 1, t.len());
    proof {
        assert(p64@ =~= rest.take(d - start as int));
        assert(sig@ =~= rest.skip(d - start as int + 1));
    }
    if has_dot_exec(&sig) {
        return Err(AuthError::Malformed);
    }
    proof {
        assert(split_spec(t@) == Some((p64@, sig@)));
    }
    let pj = match b64_decode(&p64) {
        Some(x) => x,
        None => {
            return Err(AuthError::Malformed);
        },
    };
    let claims = match parse_payload(&pj) {
        Some(c) => c,
        None => {
            return Err(AuthError::Malformed);
        },
    };
    let si = copy_range(t, 0, d);
    proof {
        assert(si@ =~= signing_input_of(p64@));
    }
    let computed = hmac_sign_b64(&si, secret);
    if !sig_eq(&sig, &computed) {
        return Err(AuthError::InvalidSignature);
    }
    if now >= claims.exp {
        return Err(AuthError::Expired);
    }
    Ok(claims)
}

/// Verifies and decodes a token against the secret at time `now`: exactly
/// the outcome `verify_spec` describes for the token's UTF-8 bytes.
pub fn verify_token_at(token: &str, secret: &str, now: u64) -> (r: Result<Claims, AuthError>)
    ensures
        r matches Ok(c) ==> verify_spec(encode_utf8(token@), secret@, now) == Ok::<
            ClaimsView,
            AuthError,
        >(c@),
        r matches Err(e) ==> verify_spec(encode_utf8(token@), secret@, now) == Err::<
            ClaimsView,
            AuthError,
        >(e),
{
    let t = token.as_bytes_vec();
    verify_token_bytes(&t, secret, now)
}

/// Verifies and decodes a token against the secret at the current time.
pub fn verify_token(token: &str, secret: &str) -> (r: Result<Claims, AuthError>)
    ensures
        r matches Ok(c) ==> encode_utf8(token@) == token_of(c@, secret@),
{
    let now = now_or_zero();
    let r = verify_token_at(token, secret, now);
    proof {
        lemma_verify_sound(encode_utf8(token@), secret@, now);
    }
    r
}

} // verus!
