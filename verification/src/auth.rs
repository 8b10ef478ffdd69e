//! Request authentication: every request carries a public key, a timestamp and
//! an ed25519 signature over the request.
use crate::payload;
use crate::text;
use ed25519_dalek::{Signature, Verifier, VerifyingKey};
use sha2::{Digest, Sha256};
use vstd::prelude::*;
use vstd::slice::slice_to_vec;

verus! {

/// How far a request's timestamp may be from the server's clock.
pub const MAX_CLOCK_SKEW_SECS: i64 = 300;

/// Why a request is not authenticated.
#[derive(Debug, PartialEq)]
pub enum AuthError {
    MissingHeader(&'static str),
    BadEncoding,
    SkewedTimestamp,
    BadSignature,
}

/// An authentication error as a mathematical value.
#[verifier::ext_equal]
pub enum AuthErrorView {
    MissingHeader(Seq<char>),
    BadEncoding,
    SkewedTimestamp,
    BadSignature,
}

impl View for AuthError {
    type V = AuthErrorView;

    open spec fn view(&self) -> AuthErrorView {
        match self {
            AuthError::MissingHeader(h) => AuthErrorView::MissingHeader(h@),
            AuthError::BadEncoding => AuthErrorView::BadEncoding,
            AuthError::SkewedTimestamp => AuthErrorView::SkewedTimestamp,
            AuthError::BadSignature => AuthErrorView::BadSignature,
        }
    }
}

impl AuthErrorView {
    /// What the client is told.
    pub open spec fn message(self) -> Seq<char> {
        match self {
            AuthErrorView::MissingHeader(h) => "missing header: "@ + h,
            AuthErrorView::BadEncoding => "malformed auth header"@,
            AuthErrorView::SkewedTimestamp => "timestamp outside allowed window"@,
            AuthErrorView::BadSignature => "signature verification failed"@,
        }
    }
}

impl AuthError {
    /// What the client is told.
    pub fn message(&self) -> (message: String)
        ensures
            message@ == self@.message(),
    {
        match self {
            AuthError::MissingHeader(h) => {
                let mut message = "missing header: ".to_owned();
                message.append(h);
                message
            },
            AuthError::BadEncoding => "malformed auth header".to_owned(),
            AuthError::SkewedTimestamp => "timestamp outside allowed window".to_owned(),
            AuthError::BadSignature => "signature verification failed".to_owned(),
        }
    }
}

/// The values of the authentication headers of a request, as they came. A
/// header that the request does not have is absent.
#[derive(Debug)]
pub struct AuthHeaders {
    /// `x-shoal-pubkey`.
    pub pubkey: Option<Vec<u8>>,
    /// `x-shoal-timestamp`.
    pub timestamp: Option<Vec<u8>>,
    /// `x-shoal-signature`.
    pub signature: Option<Vec<u8>>,
}

/// The SHA-256 digest of some bytes.
pub uninterp spec fn sha256_digest(bytes: Seq<u8>) -> Seq<u8>;

/// Whether some bytes are an ed25519 public key.
pub uninterp spec fn ed25519_key_valid(key: Seq<u8>) -> bool;

/// Whether an ed25519 signature of a message verifies under a public key.
pub uninterp spec fn ed25519_verified(key: Seq<u8>, message: Seq<u8>, signature: Seq<u8>) -> bool;

/// `sha2`'s `Digest::digest` for `Sha256`. The digest depends on the bytes
/// alone, has the name `sha256_digest`, and is 32 bytes long.
#[verifier::external_body]
fn sha256(bytes: &[u8]) -> (digest: Vec<u8>)
    ensures
        digest@ == sha256_digest(bytes@),
        digest@.len() == 32,
{
    Sha256::digest(bytes).to_vec()
}

/// `ed25519_dalek`'s `VerifyingKey::try_from` on a byte slice, which is
/// `VerifyingKey::from_bytes` on slices of 32 bytes. Whether there is such a
/// key depends on the bytes alone and has the name `ed25519_key_valid`; which
/// bytes those are is not said here.
#[verifier::external_body]
fn is_key(key: &[u8]) -> (valid: bool)
    ensures
        valid == ed25519_key_valid(key@),
{
    VerifyingKey::try_from(key).is_ok()
}

/// `ed25519_dalek`'s `Verifier::verify` on the key and the signature that the
/// bytes stand for; bytes that stand for none do not verify. The answer
/// depends on the three byte strings alone and has the name
/// `ed25519_verified`; which signatures verify is not said here.
#[verifier::external_body]
fn verifies(key: &[u8], message: &[u8], signature: &[u8]) -> (verified: bool)
    ensures
        verified == ed25519_verified(key@, message@, signature@),
{
    match (VerifyingKey::try_from(key), Signature::from_slice(signature)) {
        (Ok(key), Ok(signature)) => key.verify(message, &signature).is_ok(),
        _ => false,
    }
}

/// The text that is signed: method, path with query, timestamp and the digest
/// of the body in hexadecimal, on a line each.
pub open spec fn signed_text(
    method: Seq<char>,
    path_and_query: Seq<char>,
    timestamp: Seq<char>,
    digest: Seq<u8>,
) -> Seq<char> {
    method + seq!['\n'] + path_and_query + seq!['\n'] + timestamp + seq!['\n'] + text::hex_chars(
        digest,
    )
}

/// The bytes that are signed, given the digest of the body.
pub fn message_with_digest(
    method: &str,
    path_and_query: &str,
    timestamp: &str,
    digest: &[u8],
) -> (message: Vec<u8>)
    ensures
        message@ == vstd::utf8::encode_utf8(
            signed_text(method@, path_and_query@, timestamp@, digest@),
        ),
{
    let mut message = method.to_owned();
    message.push('\n');
    message.append(path_and_query);
    message.push('\n');
    message.append(timestamp);
    message.push('\n');
    message.append(text::hex(digest).as_str());
    assert(message@ =~= signed_text(method@, path_and_query@, timestamp@, digest@));
    slice_to_vec(message.as_str().as_bytes())
}

/// The signed message is:
///   method \n path-with-query \n timestamp \n hex(sha256(body))
pub fn signing_message(method: &str, path_and_query: &str, timestamp: &str, body: &[u8]) -> (message:
    Vec<u8>)
    ensures
        message@ == vstd::utf8::encode_utf8(
            signed_text(method@, path_and_query@, timestamp@, sha256_digest(body@)),
        ),
{
    message_with_digest(method, path_and_query, timestamp, sha256(body).as_slice())
}

/// Whether a byte of a header value is a character that text may hold: visible
/// ASCII, a space or a tab.
pub open spec fn is_visible(byte: u8) -> bool {
    32 <= byte < 127 || byte == 9
}

/// Whether all of a header value is text.
pub open spec fn all_visible(value: Seq<u8>) -> bool {
    forall|i: int| 0 <= i < value.len() ==> is_visible(#[trigger] value[i])
}

/// The text of a header value.
pub open spec fn ascii_text(value: Seq<u8>) -> Seq<char> {
    value.map_values(|byte: u8| byte as char)
}

/// A header as text, or what is wrong with it.
pub open spec fn header_text(value: Option<Seq<u8>>, name: Seq<char>) -> Result<
    Seq<char>,
    AuthErrorView,
> {
    match value {
        None => Err(AuthErrorView::MissingHeader(name)),
        Some(bytes) => if all_visible(bytes) {
            Ok(ascii_text(bytes))
        } else {
            Err(AuthErrorView::BadEncoding)
        },
    }
}

/// What an answer holds.
pub open spec fn answer_view(answer: Result<String, AuthError>) -> Result<Seq<char>, AuthErrorView> {
    match answer {
        Ok(text) => Ok(text@),
        Err(e) => Err(e@),
    }
}

/// Reads a header as text.
pub fn read_header(value: &Option<Vec<u8>>, name: &'static str) -> (read: Result<String, AuthError>)
    ensures
        answer_view(read) == header_text(payload::bytes_of(*value), name@),
{
    let bytes = match value {
        Some(bytes) => bytes,
        None => return Err(AuthError::MissingHeader(name)),
    };
    let mut read = String::new();
    let mut i: usize = 0;
    assert(read@ =~= ascii_text(bytes@.take(0)));
    while i < bytes.len()
        invariant
            i <= bytes.len(),
            payload::bytes_of(*value) == Some(bytes@),
            forall|j: int| 0 <= j < i ==> is_visible(#[trigger] bytes@[j]),
            read@ == ascii_text(bytes@.take(i as int)),
        decreases bytes.len() - i,
    {
        let byte = bytes[i];
        if !((byte >= 32 && byte < 127) || byte == 9) {
            assert(!is_visible(bytes@[i as int]));
            return Err(AuthError::BadEncoding);
        }
        read.push(byte as char);
        assert(ascii_text(bytes@.take(i + 1)) =~= ascii_text(bytes@.take(i as int)).push(
            byte as char,
        ));
        i += 1;
    }
    assert(bytes@.take(bytes@.len() as int) =~= bytes@);
    Ok(read)
}

/// The timestamp that a text gives, if it is close enough to the clock.
pub open spec fn timely(timestamp: Seq<char>, now: int) -> Result<int, AuthErrorView> {
    match text::number_within(timestamp, true, i64::MIN as int, i64::MAX as int) {
        None => Err(AuthErrorView::BadEncoding),
        Some(at) => if -MAX_CLOCK_SKEW_SECS <= now - at <= MAX_CLOCK_SKEW_SECS {
            Ok(at)
        } else {
            Err(AuthErrorView::SkewedTimestamp)
        },
    }
}

/// Reads a timestamp and holds it against the clock.
pub fn check_timestamp(timestamp: &str, now: i64) -> (checked: Result<i64, AuthError>)
    ensures
        (match checked {
            Ok(at) => Ok(at as int),
            Err(e) => Err(e@),
        }) == timely(timestamp@, now as int),
{
    let at: i64 = match text::parse_i64(timestamp) {
        Some(at) => at,
        None => return Err(AuthError::BadEncoding),
    };
    let skew: i128 = now as i128 - at as i128;
    if skew > MAX_CLOCK_SKEW_SECS as i128 || skew < -(MAX_CLOCK_SKEW_SECS as i128) {
        return Err(AuthError::SkewedTimestamp);
    }
    Ok(at)
}

/// The answer to a request with these headers, given what base64 makes of the
/// key and the signature, whether those bytes are a key, and whether the
/// signature verifies.
pub open spec fn verdict(
    pubkey: Seq<char>,
    timestamp: Seq<char>,
    now: int,
    key: Option<Seq<u8>>,
    key_valid: bool,
    signature: Option<Seq<u8>>,
    verified: bool,
) -> Result<Seq<char>, AuthErrorView> {
    if timely(timestamp, now) is Err {
        Err(timely(timestamp, now)->Err_0)
    } else if !(key matches Some(k) && k.len() == 32) || !key_valid {
        Err(AuthErrorView::BadEncoding)
    } else if !(signature matches Some(s) && s.len() == 64) {
        Err(AuthErrorView::BadEncoding)
    } else if !verified {
        Err(AuthErrorView::BadSignature)
    } else {
        Ok(pubkey)
    }
}

/// Answers a request, given what the outside checks found.
pub fn judge(
    pubkey: String,
    timestamp: &str,
    now: i64,
    key: &Option<Vec<u8>>,
    key_valid: bool,
    signature: &Option<Vec<u8>>,
    verified: bool,
) -> (answer: Result<String, AuthError>)
    ensures
        answer_view(answer) == verdict(
            pubkey@,
            timestamp@,
            now as int,
            payload::bytes_of(*key),
            key_valid,
            payload::bytes_of(*signature),
            verified,
        ),
{
    match check_timestamp(timestamp, now) {
        Ok(_) => {},
        Err(e) => return Err(e),
    }
    if !has_length(key, 32) || !key_valid {
        return Err(AuthError::BadEncoding);
    }
    if !has_length(signature, 64) {
        return Err(AuthError::BadEncoding);
    }
    if !verified {
        return Err(AuthError::BadSignature);
    }
    Ok(pubkey)
}

/// Whether there are bytes, and so many.
fn has_length(bytes: &Option<Vec<u8>>, length: usize) -> (yes: bool)
    ensures
        yes == (payload::bytes_of(*bytes) matches Some(b) && b.len() == length),
{
    match bytes {
        Some(b) => b.len() == length,
        None => false,
    }
}

/// The answer to a request: the caller's public key, or the first thing that
/// is wrong with it.
pub open spec fn authenticated(
    headers: AuthHeaders,
    method: Seq<char>,
    path_and_query: Seq<char>,
    body: Seq<u8>,
    now: int,
) -> Result<Seq<char>, AuthErrorView> {
    let pubkey = header_text(payload::bytes_of(headers.pubkey), "x-shoal-pubkey"@);
    let timestamp = header_text(payload::bytes_of(headers.timestamp), "x-shoal-timestamp"@);
    let signature = header_text(payload::bytes_of(headers.signature), "x-shoal-signature"@);
    if pubkey is Err {
        pubkey
    } else if timestamp is Err {
        timestamp
    } else if signature is Err {
        signature
    } else {
        let key = payload::url_safe_no_pad_decoded(pubkey->Ok_0);
        let sig = payload::url_safe_no_pad_decoded(signature->Ok_0);
        let message = vstd::utf8::encode_utf8(
            signed_text(method, path_and_query, timestamp->Ok_0, sha256_digest(body)),
        );
        verdict(
            pubkey->Ok_0,
            timestamp->Ok_0,
            now,
            key,
            key is Some && ed25519_key_valid(key->0),
            sig,
            key is Some && sig is Some && ed25519_verified(key->0, message, sig->0),
        )
    }
}

/// Verifies request auth headers. Returns the caller's pubkey (base64url) on
/// success. `now` is unix seconds.
pub fn verify(
    headers: &AuthHeaders,
    method: &str,
    path_and_query: &str,
    body: &[u8],
    now: i64,
) -> (answer: Result<String, AuthError>)
    ensures
        answer_view(answer) == authenticated(
            *headers,
            method@,
            path_and_query@,
            body@,
            now as int,
        ),
{
    let pubkey = match read_header(&headers.pubkey, "x-shoal-pubkey") {
        Ok(pubkey) => pubkey,
        Err(e) => return Err(e),
    };
    let timestamp = match read_header(&headers.timestamp, "x-shoal-timestamp") {
        Ok(timestamp) => timestamp,
        Err(e) => return Err(e),
    };
    let signature = match read_header(&headers.signature, "x-shoal-signature") {
        Ok(signature) => signature,
        Err(e) => return Err(e),
    };
    match check_timestamp(timestamp.as_str(), now) {
        Ok(_) => {},
        Err(e) => return Err(e),
    }
    let key = payload::decode_url_safe_no_pad(pubkey.as_str());
    let key_valid = match &key {
        Some(k) => is_key(k.as_slice()),
        None => false,
    };
    if !key_valid {
        return Err(AuthError::BadEncoding);
    }
    let sig = payload::decode_url_safe_no_pad(signature.as_str());
    let verified = match (&key, &sig) {
        (Some(k), Some(s)) => {
            let message = signing_message(method, path_and_query, timestamp.as_str(), body);
            verifies(k.as_slice(), message.as_slice(), s.as_slice())
        },
        _ => false,
    };
    judge(pubkey, timestamp.as_str(), now, &key, key_valid, &sig, verified)
}

/// The first line of a text and what follows are determined by the text.
proof fn lemma_first_line(a: Seq<char>, rest_a: Seq<char>, b: Seq<char>, rest_b: Seq<char>)
    requires
        !a.contains('\n'),
        !b.contains('\n'),
        a + seq!['\n'] + rest_a == b + seq!['\n'] + rest_b,
    ensures
        a == b,
        rest_a == rest_b,
{
    let whole_a = a + seq!['\n'] + rest_a;
    let whole_b = b + seq!['\n'] + rest_b;
    if a.len() < b.len() {
        assert(whole_a[a.len() as int] == '\n');
        assert(whole_b[a.len() as int] == b[a.len() as int]);
        assert(b.contains('\n'));
    }
    if b.len() < a.len() {
        assert(whole_b[b.len() as int] == '\n');
        assert(whole_a[b.len() as int] == a[b.len() as int]);
        assert(a.contains('\n'));
    }
    assert(a =~= whole_a.take(a.len() as int));
    assert(b =~= whole_b.take(b.len() as int));
    assert(rest_a =~= whole_a.skip(a.len() as int + 1));
    assert(rest_b =~= whole_b.skip(b.len() as int + 1));
}

/// A signature is for one request only: where method, path and timestamp hold
/// no line break, two requests with the same signed message have the same
/// method, path, timestamp and body digest.
pub proof fn signed_messages_differ_as_requests_do(
    method: Seq<char>,
    path_and_query: Seq<char>,
    timestamp: Seq<char>,
    digest: Seq<u8>,
    other_method: Seq<char>,
    other_path: Seq<char>,
    other_timestamp: Seq<char>,
    other_digest: Seq<u8>,
)
    requires
        !method.contains('\n'),
        !path_and_query.contains('\n'),
        !timestamp.contains('\n'),
        !other_method.contains('\n'),
        !other_path.contains('\n'),
        !other_timestamp.contains('\n'),
        vstd::utf8::encode_utf8(signed_text(method, path_and_query, timestamp, digest))
            == vstd::utf8::encode_utf8(
            signed_text(other_method, other_path, other_timestamp, other_digest),
        ),
    ensures
        method == other_method,
        path_and_query == other_path,
        timestamp == other_timestamp,
        digest == other_digest,
{
    let a = signed_text(method, path_and_query, timestamp, digest);
    let b = signed_text(other_method, other_path, other_timestamp, other_digest);
    vstd::utf8::encode_utf8_decode_utf8(a);
    vstd::utf8::encode_utf8_decode_utf8(b);
    assert(a == b);
    let hex_a = text::hex_chars(digest);
    let hex_b = text::hex_chars(other_digest);
    let last_a = timestamp + seq!['\n'] + hex_a;
    let last_b = other_timestamp + seq!['\n'] + hex_b;
    let tail_a = path_and_query + seq!['\n'] + last_a;
    let tail_b = other_path + seq!['\n'] + last_b;
    assert(a =~= method + seq!['\n'] + tail_a);
    assert(b =~= other_method + seq!['\n'] + tail_b);
    lemma_first_line(method, tail_a, other_method, tail_b);
    lemma_first_line(path_and_query, last_a, other_path, last_b);
    lemma_first_line(timestamp, hex_a, other_timestamp, hex_b);
    text::lemma_hex_injective(digest, other_digest);
}

/// A request that is let in carries a timestamp within the allowed skew and a
/// signature over its own method, path, timestamp and body that verifies under
/// the key it names; that key is the answer.
pub proof fn only_verified_requests_are_let_in(
    headers: AuthHeaders,
    method: Seq<char>,
    path_and_query: Seq<char>,
    body: Seq<u8>,
    now: int,
)
    requires
        authenticated(headers, method, path_and_query, body, now) is Ok,
    ensures
        headers.pubkey is Some && headers.timestamp is Some && headers.signature is Some,
        ({
            let pubkey = ascii_text(headers.pubkey->0@);
            let timestamp = ascii_text(headers.timestamp->0@);
            let signature = ascii_text(headers.signature->0@);
            let key = payload::url_safe_no_pad_decoded(pubkey);
            let sig = payload::url_safe_no_pad_decoded(signature);
            let at = text::number_within(timestamp, true, i64::MIN as int, i64::MAX as int);
            &&& authenticated(headers, method, path_and_query, body, now)->Ok_0 == pubkey
            &&& at is Some && -300 <= now - at->0 <= 300
            &&& key is Some && key->0.len() == 32 && ed25519_key_valid(key->0)
            &&& sig is Some && sig->0.len() == 64
            &&& ed25519_verified(
                key->0,
                vstd::utf8::encode_utf8(
                    signed_text(method, path_and_query, timestamp, sha256_digest(body)),
                ),
                sig->0,
            )
        }),
{
}

/// A request that is signed as it should be is let in, whatever its method,
/// path and body: where the three headers are there and are visible ASCII, the
/// timestamp is a number no more than 300 from the clock, the key is 32 bytes
/// that are a key, and the signature is 64 bytes that verify over the method,
/// the path, the timestamp and the digest of the body in hexadecimal, with a
/// line break between each two, the answer is the text of the key's header.
pub proof fn verified_requests_are_let_in(
    headers: AuthHeaders,
    pubkey: Seq<char>,
    timestamp: Seq<char>,
    signature: Seq<char>,
    at: int,
    key: Seq<u8>,
    sig: Seq<u8>,
    method: Seq<char>,
    path_and_query: Seq<char>,
    body: Seq<u8>,
    now: int,
)
    requires
        headers.pubkey is Some && headers.timestamp is Some && headers.signature is Some,
        reads_as(headers.pubkey->0@, pubkey),
        reads_as(headers.timestamp->0@, timestamp),
        reads_as(headers.signature->0@, signature),
        text::number_within(timestamp, true, i64::MIN as int, i64::MAX as int) == Some(at),
        at - 300 <= now <= at + 300,
        payload::url_safe_no_pad_decoded(pubkey) == Some(key),
        key.len() == 32,
        ed25519_key_valid(key),
        payload::url_safe_no_pad_decoded(signature) == Some(sig),
        sig.len() == 64,
        ed25519_verified(
            key,
            vstd::utf8::encode_utf8(
                method + seq!['\n'] + path_and_query + seq!['\n'] + timestamp + seq!['\n']
                    + text::hex_chars(sha256_digest(body)),
            ),
            sig,
        ),
    ensures
        authenticated(headers, method, path_and_query, body, now) == Ok::<
            Seq<char>,
            AuthErrorView,
        >(pubkey),
{
    lemma_reads_as(headers.pubkey->0@, pubkey);
    lemma_reads_as(headers.timestamp->0@, timestamp);
    lemma_reads_as(headers.signature->0@, signature);
}

/// Whether a header value is text, character by character: visible ASCII, a
/// space or a tab.
pub open spec fn reads_as(value: Seq<u8>, text: Seq<char>) -> bool {
    &&& value.len() == text.len()
    &&& forall|i: int|
        0 <= i < value.len() ==> (#[trigger] value[i] == 9 || 32 <= value[i] <= 126) && text[i] as int
            == value[i]
}

proof fn lemma_reads_as(value: Seq<u8>, text: Seq<char>)
    requires
        reads_as(value, text),
    ensures
        all_visible(value),
        ascii_text(value) == text,
{
    assert forall|i: int| 0 <= i < value.len() implies is_visible(#[trigger] value[i]) by {}
    assert(ascii_text(value) =~= text) by {
        assert forall|i: int| 0 <= i < value.len() implies ascii_text(value)[i] == text[i] by {
            assert(value[i] == 9 || 32 <= value[i] <= 126);
            assert(text[i] as int == value[i]);
        }
    }
}

/// A request without one of the three headers is told which: the key's before
/// the timestamp's, and that before the signature's. A header that is there is
/// not missed.
pub proof fn missing_headers_are_named(
    headers: AuthHeaders,
    pubkey: Seq<char>,
    timestamp: Seq<char>,
    method: Seq<char>,
    path_and_query: Seq<char>,
    body: Seq<u8>,
    now: int,
)
    ensures
        ({
            let answer = authenticated(headers, method, path_and_query, body, now);
            let has_pubkey = headers.pubkey is Some && reads_as(headers.pubkey->0@, pubkey);
            let has_timestamp = headers.timestamp is Some && reads_as(
                headers.timestamp->0@,
                timestamp,
            );
            &&& headers.pubkey is None ==> answer == Err::<Seq<char>, AuthErrorView>(
                AuthErrorView::MissingHeader("x-shoal-pubkey"@),
            )
            &&& has_pubkey && headers.timestamp is None ==> answer == Err::<
                Seq<char>,
                AuthErrorView,
            >(AuthErrorView::MissingHeader("x-shoal-timestamp"@))
            &&& has_pubkey && has_timestamp && headers.signature is None ==> answer == Err::<
                Seq<char>,
                AuthErrorView,
            >(AuthErrorView::MissingHeader("x-shoal-signature"@))
            &&& answer matches Err(AuthErrorView::MissingHeader(_)) ==> headers.pubkey is None
                || headers.timestamp is None || headers.signature is None
        }),
{
    if headers.pubkey is Some && reads_as(headers.pubkey->0@, pubkey) {
        lemma_reads_as(headers.pubkey->0@, pubkey);
    }
    if headers.timestamp is Some && reads_as(headers.timestamp->0@, timestamp) {
        lemma_reads_as(headers.timestamp->0@, timestamp);
    }
}

/// Why a readable request is refused: for a timestamp that is no number or for
/// a key or a signature that is none, as malformed; for a timestamp that is a
/// number but more than 300 from the clock, as skewed; and as badly signed only
/// if all of these are in order and the signature does not verify.
pub proof fn refusals_have_their_reasons(
    headers: AuthHeaders,
    pubkey: Seq<char>,
    timestamp: Seq<char>,
    signature: Seq<char>,
    method: Seq<char>,
    path_and_query: Seq<char>,
    body: Seq<u8>,
    now: int,
)
    requires
        headers.pubkey is Some && headers.timestamp is Some && headers.signature is Some,
        reads_as(headers.pubkey->0@, pubkey),
        reads_as(headers.timestamp->0@, timestamp),
        reads_as(headers.signature->0@, signature),
    ensures
        ({
            let answer = authenticated(headers, method, path_and_query, body, now);
            let at = text::number_within(timestamp, true, i64::MIN as int, i64::MAX as int);
            let close = at is Some && at->0 - 300 <= now <= at->0 + 300;
            let key = payload::url_safe_no_pad_decoded(pubkey);
            let sig = payload::url_safe_no_pad_decoded(signature);
            let formed = key is Some && key->0.len() == 32 && ed25519_key_valid(key->0)
                && sig is Some && sig->0.len() == 64;
            let verified = ed25519_verified(
                key->0,
                vstd::utf8::encode_utf8(
                    method + seq!['\n'] + path_and_query + seq!['\n'] + timestamp + seq!['\n']
                        + text::hex_chars(sha256_digest(body)),
                ),
                sig->0,
            );
            &&& answer is Ok <==> close && formed && verified
            &&& answer == Err::<Seq<char>, AuthErrorView>(AuthErrorView::SkewedTimestamp) <==> at
                is Some && !close
            &&& answer == Err::<Seq<char>, AuthErrorView>(AuthErrorView::BadSignature) <==> close
                && formed && !verified
            &&& answer == Err::<Seq<char>, AuthErrorView>(AuthErrorView::BadEncoding) <==> at
                is None || (close && !formed)
        }),
{
    lemma_reads_as(headers.pubkey->0@, pubkey);
    lemma_reads_as(headers.timestamp->0@, timestamp);
    lemma_reads_as(headers.signature->0@, signature);
}

/// A header that holds anything but visible ASCII, spaces and tabs is not let
/// in.
pub proof fn unreadable_headers_are_refused(
    headers: AuthHeaders,
    method: Seq<char>,
    path_and_query: Seq<char>,
    body: Seq<u8>,
    now: int,
    i: int,
)
    requires
        headers.pubkey is Some && headers.timestamp is Some && headers.signature is Some,
        ({
            let odd = |byte: u8| byte < 9 || 9 < byte < 32 || byte > 126;
            ||| 0 <= i < headers.pubkey->0@.len() && odd(headers.pubkey->0@[i])
            ||| 0 <= i < headers.timestamp->0@.len() && odd(headers.timestamp->0@[i])
            ||| 0 <= i < headers.signature->0@.len() && odd(headers.signature->0@[i])
        }),
    ensures
        authenticated(headers, method, path_and_query, body, now) == Err::<
            Seq<char>,
            AuthErrorView,
        >(AuthErrorView::BadEncoding),
{
    if 0 <= i < headers.pubkey->0@.len() {
        let byte = headers.pubkey->0@[i];
        assert(is_visible(byte) || !all_visible(headers.pubkey->0@));
    }
    if 0 <= i < headers.timestamp->0@.len() {
        let byte = headers.timestamp->0@[i];
        assert(is_visible(byte) || !all_visible(headers.timestamp->0@));
    }
    if 0 <= i < headers.signature->0@.len() {
        let byte = headers.signature->0@[i];
        assert(is_visible(byte) || !all_visible(headers.signature->0@));
    }
}

/// Every refusal is told in words of its own.
pub proof fn refusals_are_told_in_words(header: Seq<char>)
    ensures
        AuthErrorView::MissingHeader(header).message() == "missing header: "@ + header,
        AuthErrorView::BadEncoding.message() == "malformed auth header"@,
        AuthErrorView::SkewedTimestamp.message() == "timestamp outside allowed window"@,
        AuthErrorView::BadSignature.message() == "signature verification failed"@,
{
}

} // verus!
