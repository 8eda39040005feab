//! The outside codecs the grammar and the handshake rely on. Each result is
//! named by a spec function of its arguments; only facts the codecs' sources
//! show directly are stated beside the names.
use vstd::prelude::*;

use base64::Engine;

verus! {

/// Bytes that RFC 4648 base32 spells with (either case of a letter, or 2 to 7).
pub open spec fn is_base32_byte(c: u8) -> bool {
    (65 <= c <= 90) || (97 <= c <= 122) || (50 <= c <= 55)
}

/// What base32 (RFC 4648, no padding) decodes `s` to.
pub uninterp spec fn base32_decoded(s: Seq<u8>) -> Seq<u8>;

/// Relies on `base32::decode` with the RFC 4648 alphabet: every character of
/// the alphabet (either case) is accepted, and the result holds five bits per
/// character, rounded down to whole bytes.
#[verifier::external_body]
pub(crate) fn base32_decode(s: &[u8]) -> (r: Option<Vec<u8>>)
    requires
        forall|i: int| 0 <= i < s@.len() ==> is_base32_byte(#[trigger] s@[i]),
    ensures
        r is Some,
        r->0@ == base32_decoded(s@),
        r->0@.len() == s@.len() * 5 / 8,
{
    std::str::from_utf8(s).ok().and_then(
        |t| base32::decode(base32::Alphabet::RFC4648 { padding: false }, t),
    )
}

/// What base32 (RFC 4648, no padding) encodes `b` to.
pub uninterp spec fn base32_encoded(b: Seq<u8>) -> Seq<u8>;

/// Upper-case letters and the digits 2 to 7: what RFC 4648 base32 writes.
pub open spec fn is_upper_base32(c: u8) -> bool {
    (65 <= c <= 90) || (50 <= c <= 55)
}

/// `s` with its upper-case ASCII letters made lower-case.
pub open spec fn ascii_lower(s: Seq<u8>) -> Seq<u8> {
    s.map_values(|c: u8| if 65 <= c <= 90 {
        (c + 32) as u8
    } else {
        c
    })
}

/// Relies on `base32::encode` with the RFC 4648 alphabet and no padding:
/// upper-case letters and the digits 2 to 7, eight characters for every five
/// bytes; and on `base32::decode`, which upper-cases each character before
/// looking it up, so that decoding that text in either case gives the bytes
/// back (stated for whole groups of five bytes).
#[verifier::external_body]
pub(crate) fn base32_encode(b: &[u8]) -> (r: Vec<u8>)
    ensures
        r@ == base32_encoded(b@),
        forall|i: int| 0 <= i < r@.len() ==> is_upper_base32(#[trigger] r@[i]),
        b@.len() % 5 == 0 ==> r@.len() == b@.len() / 5 * 8,
        b@.len() % 5 == 0 ==> base32_decoded(ascii_lower(r@)) == b@,
{
    base32::encode(base32::Alphabet::RFC4648 { padding: false }, b).into_bytes()
}

/// What base64 (standard alphabet, no padding) decodes `s` to, if anything.
pub uninterp spec fn base64_decoded(s: Seq<u8>) -> Option<Seq<u8>>;

/// Relies on `base64`'s `STANDARD_NO_PAD` engine: `decode` either fails or
/// returns the decoded bytes, as a function of the input alone.
#[verifier::external_body]
pub(crate) fn base64_decode(s: &[u8]) -> (r: Option<Vec<u8>>)
    ensures
        match r {
            Some(v) => base64_decoded(s@) == Some(v@),
            None => base64_decoded(s@) is None,
        },
{
    base64::engine::general_purpose::STANDARD_NO_PAD.decode(s).ok()
}

/// HMAC-SHA256 (RFC 2104) of `input` under `key`.
pub uninterp spec fn hmac_sha256(key: Seq<u8>, input: Seq<u8>) -> Seq<u8>;

/// Relies on `hmac_sha256::HMAC::mac(input, key)`: the 32-byte HMAC-SHA256
/// of `input` under `key`.
#[verifier::external_body]
pub(crate) fn hmac(input: &[u8], key: &[u8]) -> (r: Vec<u8>)
    ensures
        r@ == hmac_sha256(key@, input@),
        r@.len() == 32,
{
    hmac_sha256::HMAC::mac(input, key).to_vec()
}

} // verus!
