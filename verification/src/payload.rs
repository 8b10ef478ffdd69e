//! Payloads on the wire are base64 text, in storage they are bytes.
use base64::engine::general_purpose::{STANDARD, STANDARD_NO_PAD, URL_SAFE, URL_SAFE_NO_PAD};
use base64::Engine;
use vstd::prelude::*;

verus! {

/// What base64url without padding decodes a text to, if it is such a text.
pub uninterp spec fn url_safe_no_pad_decoded(text: Seq<char>) -> Option<Seq<u8>>;

/// What base64url with padding decodes a text to, if it is such a text.
pub uninterp spec fn url_safe_decoded(text: Seq<char>) -> Option<Seq<u8>>;

/// What standard base64 without padding decodes a text to, if it is such a
/// text.
pub uninterp spec fn standard_no_pad_decoded(text: Seq<char>) -> Option<Seq<u8>>;

/// What standard base64 with padding decodes a text to, if it is such a text.
pub uninterp spec fn standard_decoded(text: Seq<char>) -> Option<Seq<u8>>;

/// The base64url text, without padding, of some bytes.
pub uninterp spec fn url_safe_no_pad_encoded(bytes: Seq<u8>) -> Seq<char>;

/// `base64`'s `Engine::decode` on `URL_SAFE_NO_PAD`. What it returns depends
/// on the text alone and has the name `url_safe_no_pad_decoded`.
#[verifier::external_body]
pub(crate) fn decode_url_safe_no_pad(text: &str) -> (bytes: Option<Vec<u8>>)
    ensures
        (match bytes {
            Some(b) => Some(b@),
            None => None,
        }) == url_safe_no_pad_decoded(text@),
{
    URL_SAFE_NO_PAD.decode(text).ok()
}

/// `base64`'s `Engine::decode` on `URL_SAFE`. What it returns depends on the
/// text alone and has the name `url_safe_decoded`.
#[verifier::external_body]
fn decode_url_safe(text: &str) -> (bytes: Option<Vec<u8>>)
    ensures
        (match bytes {
            Some(b) => Some(b@),
            None => None,
        }) == url_safe_decoded(text@),
{
    URL_SAFE.decode(text).ok()
}

/// `base64`'s `Engine::decode` on `STANDARD_NO_PAD`. What it returns depends
/// on the text alone and has the name `standard_no_pad_decoded`.
#[verifier::external_body]
fn decode_standard_no_pad(text: &str) -> (bytes: Option<Vec<u8>>)
    ensures
        (match bytes {
            Some(b) => Some(b@),
            None => None,
        }) == standard_no_pad_decoded(text@),
{
    STANDARD_NO_PAD.decode(text).ok()
}

/// `base64`'s `Engine::decode` on `STANDARD`. What it returns depends on the
/// text alone and has the name `standard_decoded`.
#[verifier::external_body]
fn decode_standard(text: &str) -> (bytes: Option<Vec<u8>>)
    ensures
        (match bytes {
            Some(b) => Some(b@),
            None => None,
        }) == standard_decoded(text@),
{
    STANDARD.decode(text).ok()
}

/// Whether a character is of the base64url alphabet: a letter or a digit of
/// ASCII, a hyphen or an underscore.
pub open spec fn is_url_safe(c: char) -> bool {
    'A' <= c <= 'Z' || 'a' <= c <= 'z' || '0' <= c <= '9' || c == '-' || c == '_'
}

/// Whether a text is base64url without padding as far as its alphabet and, for
/// so many bytes, its length go: four characters for every three bytes, and no
/// more than are needed for the rest.
pub open spec fn is_unpadded(text: Seq<char>, bytes: nat) -> bool {
    &&& text.len() == (4 * bytes + 2) / 3
    &&& forall|i: int| 0 <= i < text.len() ==> is_url_safe(#[trigger] text[i])
}

/// `base64`'s `Engine::encode` on `URL_SAFE_NO_PAD`. The text depends on the
/// bytes alone, has the name `url_safe_no_pad_encoded`, is of the base64url
/// alphabet, has four characters for every three bytes and no padding, and
/// decodes with the same engine to the bytes it was made from.
#[verifier::external_body]
fn encode_url_safe_no_pad(bytes: &[u8]) -> (text: String)
    ensures
        text@ == url_safe_no_pad_encoded(bytes@),
        is_unpadded(text@, bytes@.len()),
        url_safe_no_pad_decoded(text@) == Some(bytes@),
{
    URL_SAFE_NO_PAD.encode(bytes)
}

/// The first of four readings that there is.
pub open spec fn first_reading(
    a: Option<Seq<u8>>,
    b: Option<Seq<u8>>,
    c: Option<Seq<u8>>,
    d: Option<Seq<u8>>,
) -> Option<Seq<u8>> {
    if a is Some {
        a
    } else if b is Some {
        b
    } else if c is Some {
        c
    } else {
        d
    }
}

/// The bytes of a payload: base64url is tried before standard base64, and
/// within each the unpadded form before the padded one.
pub open spec fn decoded(text: Seq<char>) -> Option<Seq<u8>> {
    first_reading(
        url_safe_no_pad_decoded(text),
        url_safe_decoded(text),
        standard_no_pad_decoded(text),
        standard_decoded(text),
    )
}

/// The text that stands for some bytes on the way out.
pub open spec fn encoded(bytes: Seq<u8>) -> Seq<char> {
    url_safe_no_pad_encoded(bytes)
}

/// What an optional byte vector holds.
pub open spec fn bytes_of(bytes: Option<Vec<u8>>) -> Option<Seq<u8>> {
    match bytes {
        Some(b) => Some(b@),
        None => None,
    }
}

/// Picks the first reading that there is.
pub fn pick_reading(
    a: Option<Vec<u8>>,
    b: Option<Vec<u8>>,
    c: Option<Vec<u8>>,
    d: Option<Vec<u8>>,
) -> (bytes: Option<Vec<u8>>)
    ensures
        bytes_of(bytes) == first_reading(bytes_of(a), bytes_of(b), bytes_of(c), bytes_of(d)),
{
    if a.is_some() {
        a
    } else if b.is_some() {
        b
    } else if c.is_some() {
        c
    } else {
        d
    }
}

/// Decodes a payload. Clients have emitted more than one form of base64, so
/// every common alphabet is accepted on the way in.
pub fn decode_payload(s: &str) -> (bytes: Option<Vec<u8>>)
    ensures
        bytes_of(bytes) == decoded(s@),
{
    let first = decode_url_safe_no_pad(s);
    if first.is_some() {
        return first;
    }
    pick_reading(first, decode_url_safe(s), decode_standard_no_pad(s), decode_standard(s))
}

/// Encodes a payload as base64url without padding. Decoding gives the bytes
/// back.
pub fn encode_payload(bytes: &[u8]) -> (text: String)
    ensures
        text@ == encoded(bytes@),
        is_unpadded(text@, bytes@.len()),
        decoded(text@) == Some(bytes@),
{
    encode_url_safe_no_pad(bytes)
}

/// A payload is read in every form of base64 that there is a reading in: as
/// base64url without padding if it is that, else with padding, else as standard
/// base64 without padding, else with it. What is none of the four is not read.
/// On the way out it is base64url without padding.
pub proof fn payloads_are_read_in_every_form(text: Seq<char>, bytes: Seq<u8>)
    ensures
        url_safe_no_pad_decoded(text) == Some(bytes) ==> decoded(text) == Some(bytes),
        url_safe_no_pad_decoded(text) is None && url_safe_decoded(text) == Some(bytes) ==> decoded(
            text,
        ) == Some(bytes),
        url_safe_no_pad_decoded(text) is None && url_safe_decoded(text) is None
            && standard_no_pad_decoded(text) == Some(bytes) ==> decoded(text) == Some(bytes),
        url_safe_no_pad_decoded(text) is None && url_safe_decoded(text) is None
            && standard_no_pad_decoded(text) is None && standard_decoded(text) == Some(bytes)
            ==> decoded(text) == Some(bytes),
        url_safe_no_pad_decoded(text) is None && url_safe_decoded(text) is None
            && standard_no_pad_decoded(text) is None && standard_decoded(text) is None ==> decoded(
            text,
        ) is None,
        encoded(bytes) == url_safe_no_pad_encoded(bytes),
{
}

/// Bytes that are there are taken as they are.
pub proof fn bytes_are_taken_as_they_are(bytes: Vec<u8>)
    ensures
        bytes_of(Some(bytes)) == Some(bytes@),
        bytes_of(None::<Vec<u8>>) == None::<Seq<u8>>,
{
}

} // verus!
