use base64::engine::general_purpose::URL_SAFE_NO_PAD as B64;
use base64::Engine;
use ed25519_dalek::{Signer, SigningKey, VerifyingKey};
use shoal::auth::{
    check_timestamp, judge, message_with_digest, read_header, signing_message, verify, AuthError, AuthHeaders,
    MAX_CLOCK_SKEW_SECS,
};

fn signed_headers(key: &SigningKey, method: &str, path: &str, body: &[u8], ts: i64) -> AuthHeaders {
    let ts = ts.to_string();
    let msg = signing_message(method, path, &ts, body);
    let sig = key.sign(&msg);
    AuthHeaders {
        pubkey: Some(B64.encode(key.verifying_key().as_bytes()).into_bytes()),
        timestamp: Some(ts.into_bytes()),
        signature: Some(B64.encode(sig.to_bytes()).into_bytes()),
    }
}

#[test]
fn accepts_valid_signature() {
    let key = SigningKey::from_bytes(&[7u8; 32]);
    let h = signed_headers(&key, "POST", "/v1/ops", b"{}", 1000);
    let got = verify(&h, "POST", "/v1/ops", b"{}", 1000).unwrap();
    assert_eq!(got, B64.encode(key.verifying_key().as_bytes()));
}

#[test]
fn rejects_wrong_body() {
    let key = SigningKey::from_bytes(&[7u8; 32]);
    let h = signed_headers(&key, "POST", "/v1/ops", b"{}", 1000);
    assert_eq!(
        verify(&h, "POST", "/v1/ops", b"tampered", 1000),
        Err(AuthError::BadSignature)
    );
}

#[test]
fn rejects_wrong_path() {
    let key = SigningKey::from_bytes(&[7u8; 32]);
    let h = signed_headers(&key, "GET", "/v1/ops?since=0", b"", 1000);
    assert_eq!(
        verify(&h, "GET", "/v1/ops?since=99", b"", 1000),
        Err(AuthError::BadSignature)
    );
}

#[test]
fn rejects_skewed_timestamp() {
    let key = SigningKey::from_bytes(&[7u8; 32]);
    let h = signed_headers(&key, "POST", "/v1/ops", b"{}", 1000);
    assert_eq!(
        verify(&h, "POST", "/v1/ops", b"{}", 1000 + MAX_CLOCK_SKEW_SECS + 1),
        Err(AuthError::SkewedTimestamp)
    );
}

#[test]
fn rejects_wrong_method() {
    let key = SigningKey::from_bytes(&[7u8; 32]);
    let h = signed_headers(&key, "POST", "/v1/ops", b"", 1000);
    assert_eq!(verify(&h, "GET", "/v1/ops", b"", 1000), Err(AuthError::BadSignature));
}

#[test]
fn skew_is_allowed_up_to_the_bound() {
    let key = SigningKey::from_bytes(&[7u8; 32]);
    let h = signed_headers(&key, "POST", "/v1/ops", b"{}", 1000);
    assert!(verify(&h, "POST", "/v1/ops", b"{}", 1300).is_ok());
    assert!(verify(&h, "POST", "/v1/ops", b"{}", 700).is_ok());
    assert_eq!(verify(&h, "POST", "/v1/ops", b"{}", 699), Err(AuthError::SkewedTimestamp));
}

#[test]
fn far_away_timestamps_are_skewed() {
    assert_eq!(check_timestamp("-9223372036854775808", 0), Err(AuthError::SkewedTimestamp));
    assert_eq!(check_timestamp("9223372036854775807", -10), Err(AuthError::SkewedTimestamp));
    assert_eq!(check_timestamp("9223372036854775808", 0), Err(AuthError::BadEncoding));
    assert_eq!(check_timestamp("+17", 20), Ok(17));
    assert_eq!(check_timestamp("", 20), Err(AuthError::BadEncoding));
    assert_eq!(check_timestamp("1e3", 1000), Err(AuthError::BadEncoding));
}

#[test]
fn missing_headers_are_named_in_order() {
    let none = AuthHeaders { pubkey: None, timestamp: None, signature: None };
    assert_eq!(
        verify(&none, "GET", "/", b"", 0),
        Err(AuthError::MissingHeader("x-shoal-pubkey"))
    );
    let key = SigningKey::from_bytes(&[7u8; 32]);
    let mut h = signed_headers(&key, "GET", "/", b"", 0);
    h.timestamp = None;
    h.signature = None;
    assert_eq!(
        verify(&h, "GET", "/", b"", 0),
        Err(AuthError::MissingHeader("x-shoal-timestamp"))
    );
    let mut h = signed_headers(&key, "GET", "/", b"", 0);
    h.signature = None;
    assert_eq!(
        verify(&h, "GET", "/", b"", 0),
        Err(AuthError::MissingHeader("x-shoal-signature"))
    );
}

#[test]
fn header_values_are_visible_ascii() {
    assert_eq!(read_header(&Some(b"a b\tc~".to_vec()), "x").unwrap(), "a b\tc~");
    assert_eq!(read_header(&Some(vec![b'a', 127]), "x"), Err(AuthError::BadEncoding));
    assert_eq!(read_header(&Some(vec![31]), "x"), Err(AuthError::BadEncoding));
    assert_eq!(read_header(&Some(vec![200]), "x"), Err(AuthError::BadEncoding));
    assert_eq!(read_header(&None, "x"), Err(AuthError::MissingHeader("x")));
}

#[test]
fn malformed_keys_and_signatures_are_bad_encoding() {
    let key = SigningKey::from_bytes(&[7u8; 32]);
    // Not base64.
    let mut h = signed_headers(&key, "GET", "/", b"", 0);
    h.pubkey = Some(b"not base64!".to_vec());
    assert_eq!(verify(&h, "GET", "/", b"", 0), Err(AuthError::BadEncoding));
    // Too short for a key.
    let mut h = signed_headers(&key, "GET", "/", b"", 0);
    h.pubkey = Some(B64.encode([1u8; 31]).into_bytes());
    assert_eq!(verify(&h, "GET", "/", b"", 0), Err(AuthError::BadEncoding));
    // Thirty-two bytes that are no point on the curve.
    let off_curve = (0..=255u8)
        .map(|b| [b; 32])
        .find(|bytes| VerifyingKey::from_bytes(bytes).is_err())
        .unwrap();
    let mut h = signed_headers(&key, "GET", "/", b"", 0);
    h.pubkey = Some(B64.encode(off_curve).into_bytes());
    assert_eq!(verify(&h, "GET", "/", b"", 0), Err(AuthError::BadEncoding));
    // Too short for a signature.
    let mut h = signed_headers(&key, "GET", "/", b"", 0);
    h.signature = Some(B64.encode([1u8; 63]).into_bytes());
    assert_eq!(verify(&h, "GET", "/", b"", 0), Err(AuthError::BadEncoding));
    // Padding is not part of the encoding of headers.
    let mut h = signed_headers(&key, "GET", "/", b"", 0);
    let mut padded = h.pubkey.unwrap();
    padded.push(b'=');
    h.pubkey = Some(padded);
    assert_eq!(verify(&h, "GET", "/", b"", 0), Err(AuthError::BadEncoding));
}

#[test]
fn another_key_does_not_verify() {
    let key = SigningKey::from_bytes(&[7u8; 32]);
    let other = SigningKey::from_bytes(&[8u8; 32]);
    let mut h = signed_headers(&key, "GET", "/", b"", 0);
    h.pubkey = Some(B64.encode(other.verifying_key().as_bytes()).into_bytes());
    assert_eq!(verify(&h, "GET", "/", b"", 0), Err(AuthError::BadSignature));
}

#[test]
fn the_signed_message_is_four_lines() {
    let message = signing_message("GET", "/v1/ops?since=0", "1000", b"");
    assert_eq!(
        String::from_utf8(message).unwrap(),
        "GET\n/v1/ops?since=0\n1000\ne3b0c44298fc1c149afbf4c8996fb92427ae41e4649b934ca495991b7852b855"
    );
    let message = message_with_digest("POST", "/p\u{e9}", "7", &[0x0f, 0xa0]);
    assert_eq!(String::from_utf8(message).unwrap(), "POST\n/p\u{e9}\n7\n0fa0");
}

#[test]
fn different_requests_sign_different_messages() {
    let message = signing_message("GET", "/a", "1", b"x");
    assert_ne!(message, signing_message("POST", "/a", "1", b"x"));
    assert_ne!(message, signing_message("GET", "/b", "1", b"x"));
    assert_ne!(message, signing_message("GET", "/a", "2", b"x"));
    assert_ne!(message, signing_message("GET", "/a", "1", b"y"));
}

#[test]
fn the_verdict_takes_the_first_fault() {
    let key = Some(vec![1u8; 32]);
    let sig = Some(vec![1u8; 64]);
    let k = || "key".to_string();
    assert_eq!(judge(k(), "100", 100, &key, true, &sig, true), Ok("key".to_string()));
    assert_eq!(judge(k(), "x", 100, &key, true, &sig, true), Err(AuthError::BadEncoding));
    assert_eq!(judge(k(), "500", 100, &None, false, &sig, false), Err(AuthError::SkewedTimestamp));
    assert_eq!(judge(k(), "100", 100, &None, true, &sig, true), Err(AuthError::BadEncoding));
    assert_eq!(judge(k(), "100", 100, &key, false, &sig, true), Err(AuthError::BadEncoding));
    assert_eq!(judge(k(), "100", 100, &key, true, &key, true), Err(AuthError::BadEncoding));
    assert_eq!(judge(k(), "100", 100, &key, true, &sig, false), Err(AuthError::BadSignature));
}

#[test]
fn auth_errors_have_messages() {
    assert_eq!(AuthError::MissingHeader("x-shoal-pubkey").message(), "missing header: x-shoal-pubkey");
    assert_eq!(AuthError::BadEncoding.message(), "malformed auth header");
    assert_eq!(AuthError::SkewedTimestamp.message(), "timestamp outside allowed window");
    assert_eq!(AuthError::BadSignature.message(), "signature verification failed");
}
