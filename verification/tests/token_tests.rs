use streamplay_auth::b64::{b64_decode, b64_encode};
use streamplay_auth::claims::Claims;
use streamplay_auth::codec::{create_token, verify_token, verify_token_at, AuthError};
use streamplay_auth::num::{dec_i64, dec_u64};
use streamplay_auth::payload::{parse_payload, payload_json};

#[test]
fn round_trip_user_token() {
    let c = Claims::new_user_at(String::from("alice"), 7, 24, 1_700_000_000);
    let token = create_token(&c, "s3cr3t").unwrap();
    let back = verify_token_at(token.as_str(), "s3cr3t", 1_700_000_010).unwrap();
    assert_eq!(back.sub, "alice");
    assert_eq!(back.user_id, Some(7));
    assert_eq!(back.is_admin, false);
    assert_eq!(back.exp, 1_700_000_000 + 24 * 3600);
}

#[test]
fn admin_token_scenario() {
    // issue at t0, verify 10 seconds later, then after a 25-hour clock advance
    let t0: u64 = 1_700_000_000;
    let c = Claims::new_admin_at(String::from("root"), 24, t0);
    let token = create_token(&c, "s3cr3t").unwrap();
    let back = verify_token_at(token.as_str(), "s3cr3t", t0 + 10).unwrap();
    assert_eq!(back.sub, "root");
    assert_eq!(back.user_id, None);
    assert_eq!(back.is_admin, true);
    let later = verify_token_at(token.as_str(), "s3cr3t", t0 + 25 * 3600);
    assert_eq!(later.unwrap_err(), AuthError::Expired);
}

#[test]
fn wrong_secret_rejected() {
    let c = Claims::new_user_at(String::from("alice"), 7, 24, 1_700_000_000);
    let token = create_token(&c, "first-secret").unwrap();
    let r = verify_token_at(token.as_str(), "second-secret", 1_700_000_010);
    assert_eq!(r.unwrap_err(), AuthError::InvalidSignature);
}

#[test]
fn tampered_payload_rejected() {
    // splice the admin payload onto the user token's signature
    let user = Claims::new_user_at(String::from("mallory"), 9, 24, 1_700_000_000);
    let admin = Claims::new_admin_at(String::from("mallory"), 24, 1_700_000_000);
    let t_user = create_token(&user, "s3cr3t").unwrap();
    let t_admin = create_token(&admin, "s3cr3t").unwrap();
    let user_parts: Vec<&str> = t_user.split('.').collect();
    let admin_parts: Vec<&str> = t_admin.split('.').collect();
    let spliced = format!("{}.{}.{}", user_parts[0], admin_parts[1], user_parts[2]);
    let r = verify_token_at(spliced.as_str(), "s3cr3t", 1_700_000_010);
    assert_eq!(r.unwrap_err(), AuthError::InvalidSignature);
}

#[test]
fn expired_beats_validity_window() {
    let c = Claims::new_user_at(String::from("old"), 1, 1, 1000);
    let token = create_token(&c, "k").unwrap();
    assert_eq!(c.exp, 1000 + 3600);
    // exactly at expiry counts as expired
    assert_eq!(
        verify_token_at(token.as_str(), "k", 1000 + 3600).unwrap_err(),
        AuthError::Expired
    );
    assert!(verify_token_at(token.as_str(), "k", 1000 + 3599).is_ok());
}

#[test]
fn malformed_tokens_rejected() {
    assert_eq!(
        verify_token_at("garbage", "k", 0).unwrap_err(),
        AuthError::Malformed
    );
    assert_eq!(verify_token_at("", "k", 0).unwrap_err(), AuthError::Malformed);
    assert_eq!(
        verify_token_at("a.b.c", "k", 0).unwrap_err(),
        AuthError::Malformed
    );
    // a real header, but an undecodable payload
    let c = Claims::new_user_at(String::from("x"), 1, 24, 1000);
    let token = create_token(&c, "k").unwrap();
    let parts: Vec<&str> = token.split('.').collect();
    let broken = format!("{}.{}.{}", parts[0], "!!!not-base64!!!", parts[2]);
    assert_eq!(
        verify_token_at(broken.as_str(), "k", 1001).unwrap_err(),
        AuthError::Malformed
    );
    // four segments are not a token
    let four = format!("{}.{}.{}.{}", parts[0], parts[1], parts[1], parts[2]);
    assert_eq!(
        verify_token_at(four.as_str(), "k", 1001).unwrap_err(),
        AuthError::Malformed
    );
}

#[test]
fn constructor_shapes() {
    let a = Claims::new_admin(String::from("root"), 24);
    assert_eq!(a.user_id, None);
    assert_eq!(a.is_admin, true);
    assert_eq!(a.sub, "root");
    let u = Claims::new_user(String::from("bob"), 42, 24);
    assert_eq!(u.user_id, Some(42));
    assert_eq!(u.is_admin, false);
    assert_eq!(u.sub, "bob");
}

#[test]
fn verify_token_uses_real_clock() {
    let c = Claims::new_user(String::from("clock"), 3, 24);
    let token = create_token(&c, "k").unwrap();
    let back = verify_token(token.as_str(), "k").unwrap();
    assert_eq!(back.user_id, Some(3));
}

#[test]
fn signature_matches_jsonwebtoken() {
    // the token's signature segment verifies under jsonwebtoken itself
    let c = Claims::new_user_at(String::from("interop"), 5, 24, 1_700_000_000);
    let token = create_token(&c, "shared-secret").unwrap();
    let dot = token.rfind('.').unwrap();
    let message = &token[..dot];
    let sig = &token[dot + 1..];
    let key = jsonwebtoken::DecodingKey::from_secret("shared-secret".as_bytes());
    let ok = jsonwebtoken::crypto::verify(
        sig,
        message.as_bytes(),
        &key,
        jsonwebtoken::Algorithm::HS256,
    )
    .unwrap();
    assert!(ok);
    let bad = jsonwebtoken::crypto::verify(
        sig,
        "something else".as_bytes(),
        &key,
        jsonwebtoken::Algorithm::HS256,
    )
    .unwrap();
    assert!(!bad);
}

#[test]
fn payload_rendering_is_exact() {
    let c = Claims::new_user_at(String::from("ann"), 7, 0, 1234);
    let pj = payload_json(&c);
    assert_eq!(
        String::from_utf8(pj.clone()).unwrap(),
        "{\"sub\":\"ann\",\"user_id\":7,\"is_admin\":false,\"exp\":1234}"
    );
    let back = parse_payload(&pj).unwrap();
    assert_eq!(back.sub, "ann");
    assert_eq!(back.user_id, Some(7));
    assert_eq!(back.exp, 1234);
}

#[test]
fn payload_escaping_round_trips() {
    for name in ["", "a\"b", "back\\slash", "tab\there", "caf\u{e9}", "\u{1}low"] {
        let c = Claims::new_user_at(String::from(name), 1, 24, 99);
        let pj = payload_json(&c);
        let back = parse_payload(&pj).unwrap();
        assert_eq!(back.sub, name);
    }
}

#[test]
fn payload_parser_is_strict() {
    // non-canonical but plausible variants are refused
    let cases = [
        "{\"sub\":\"a\",\"user_id\":07,\"is_admin\":false,\"exp\":1}",
        "{\"sub\":\"a\",\"user_id\":7,\"is_admin\":false,\"exp\":1} ",
        "{\"sub\":\"a\", \"user_id\":7,\"is_admin\":false,\"exp\":1}",
        "{\"user_id\":7,\"sub\":\"a\",\"is_admin\":false,\"exp\":1}",
        "{\"sub\":\"a\",\"user_id\":7,\"is_admin\":false,\"exp\":-1}",
        "{\"sub\":\"a\",\"user_id\":7,\"is_admin\":maybe,\"exp\":1}",
    ];
    for text in cases {
        assert!(parse_payload(&text.as_bytes().to_vec()).is_none(), "{}", text);
    }
}

#[test]
fn decimal_rendering() {
    assert_eq!(dec_u64(0), b"0".to_vec());
    assert_eq!(dec_u64(65535), b"65535".to_vec());
    assert_eq!(dec_u64(u64::MAX), b"18446744073709551615".to_vec());
    assert_eq!(dec_i64(-5), b"-5".to_vec());
    assert_eq!(dec_i64(i64::MIN), b"-9223372036854775808".to_vec());
}

#[test]
fn base64_url_round_trip() {
    let data = vec![0u8, 1, 2, 250, 251, 252, 253, 254, 255];
    let enc = b64_encode(&data);
    assert_eq!(String::from_utf8(enc.clone()).unwrap(), "AAEC-vv8_f7_");
    assert_eq!(b64_decode(&enc).unwrap(), data);
    assert_eq!(b64_encode(&Vec::new()), Vec::<u8>::new());
    // padding characters and non-canonical tails are refused
    assert!(b64_decode(&b"QQ==".to_vec()).is_none());
    assert!(b64_decode(&b"QR".to_vec()).is_none());
    assert!(b64_decode(&b"QQ".to_vec()).is_some());
}
