//! Signed requests: an `Authorization` header `key:signature`, both in
//! standard base64, is accepted when the Ed25519 signature over the
//! request's `METHOD:path` verifies under the 32-byte key.

use vstd::prelude::*;
use base64::Engine;
use ed25519_dalek::Verifier;
use crate::text::{chars_of, find_chars, find_index, lemma_find_index, slice_chars, string_from};

verus! {

broadcast use vstd::string::group_string_axioms;

/// What standard base64 (with padding) decodes `text` to, or `None` where
/// `text` is no such encoding.
pub uninterp spec fn base64_standard(text: Seq<char>) -> Option<Seq<u8>>;

/// Whether the Ed25519 `signature` over `message` verifies under the public
/// key whose compressed form is `key`.
pub uninterp spec fn ed25519_accepts(key: Seq<u8>, message: Seq<u8>, signature: Seq<u8>) -> bool;

/// `base64::engine::general_purpose::STANDARD.decode`: the bytes that the
/// text encodes, or `None` where the decoder refuses it.
#[verifier::external_body]
fn decode_base64(text: &str) -> (r: Option<Vec<u8>>)
    ensures
        match r {
            Some(b) => base64_standard(text@) == Some(b@),
            None => base64_standard(text@) is None,
        },
{
    base64::engine::general_purpose::STANDARD.decode(text).ok()
}

/// `ed25519_dalek`: `VerifyingKey::from_bytes` reads the key (refusing
/// bytes that are no curve point, which counts as no verification),
/// `Signature::from_bytes` the signature, and `Verifier::verify` checks it
/// over the message.
#[verifier::external_body]
fn ed25519_verify(key: &[u8], message: &[u8], signature: &[u8]) -> (ok: bool)
    requires
        key@.len() == 32,
        signature@.len() == 64,
    ensures
        ok == ed25519_accepts(key@, message@, signature@),
{
    let key: [u8; 32] = key.try_into().unwrap();
    let signature: [u8; 64] = signature.try_into().unwrap();
    match ed25519_dalek::VerifyingKey::from_bytes(&key) {
        Ok(k) => k.verify(message, &ed25519_dalek::Signature::from_bytes(&signature)).is_ok(),
        Err(_) => false,
    }
}

/// The first two pieces of the header between colons: the text before the
/// first colon, and the text after it up to the next colon or the end;
/// `None` when there is no colon.
pub open spec fn header_parts(h: Seq<char>) -> Option<(Seq<char>, Seq<char>)> {
    let k = find_index(h, seq![':']);
    if k < 0 {
        None
    } else {
        let rest = h.skip(k + 1);
        let j = find_index(rest, seq![':']);
        Some((h.take(k), if j < 0 { rest } else { rest.take(j) }))
    }
}

/// A decoded key and signature of the right sizes: 32 and 64 bytes.
pub open spec fn spec_key_and_signature(key: Option<Seq<u8>>, sig: Option<Seq<u8>>) -> Option<
    (Seq<u8>, Seq<u8>),
> {
    match (key, sig) {
        (Some(k), Some(s)) => if k.len() == 32 && s.len() == 64 {
            Some((k, s))
        } else {
            None
        },
        _ => None,
    }
}

/// Whether the header signs `message`: its two parts decode, have the
/// sizes of a key and a signature, and the signature verifies.
pub open spec fn spec_verify_signature(h: Seq<char>, message: Seq<u8>) -> bool {
    match header_parts(h) {
        None => false,
        Some((a, b)) => match spec_key_and_signature(base64_standard(a), base64_standard(b)) {
            Some((k, s)) => ed25519_accepts(k, message, s),
            None => false,
        },
    }
}

/// The key and signature parts of an `Authorization` header.
pub fn signature_header_parts(header: &str) -> (r: Option<(String, String)>)
    ensures
        match r {
            Some((a, b)) => header_parts(header@) == Some((a@, b@)),
            None => header_parts(header@) is None,
        },
{
    let h = chars_of(header);
    let colon: Vec<char> = vec![':'];
    assert(colon@ == seq![':']);
    proof {
        lemma_find_index(h@, colon@);
    }
    match find_chars(&h, &colon) {
        None => None,
        Some(k) => {
            let n = h.len();
            let first = slice_chars(&h, 0, k);
            let rest = slice_chars(&h, k + 1, n);
            assert(first@ =~= h@.take(k as int));
            assert(rest@ =~= h@.skip(k + 1));
            proof {
                lemma_find_index(rest@, colon@);
            }
            let second = match find_chars(&rest, &colon) {
                None => rest,
                Some(j) => {
                    let t = slice_chars(&rest, 0, j);
                    assert(t@ =~= rest@.take(j as int));
                    t
                },
            };
            Some((string_from(&first), string_from(&second)))
        },
    }
}

/// The decoded key and signature, when both decoded and they have the
/// sizes of a key (32 bytes) and a signature (64 bytes).
pub fn key_and_signature(key: Option<Vec<u8>>, sig: Option<Vec<u8>>) -> (r: Option<(Vec<u8>, Vec<u8>)>)
    ensures
        match r {
            Some((k, s)) => spec_key_and_signature(
                match key {
                    Some(v) => Some(v@),
                    None => None,
                },
                match sig {
                    Some(v) => Some(v@),
                    None => None,
                },
            ) == Some((k@, s@)),
            None => spec_key_and_signature(
                match key {
                    Some(v) => Some(v@),
                    None => None,
                },
                match sig {
                    Some(v) => Some(v@),
                    None => None,
                },
            ) is None,
        },
{
    match (key, sig) {
        (Some(k), Some(s)) => if k.len() == 32 && s.len() == 64 {
            Some((k, s))
        } else {
            None
        },
        _ => None,
    }
}

/// Whether the `Authorization` header `key:signature` signs `message`; see
/// `spec_verify_signature`.
pub fn verify_signature(header: &str, message: &[u8]) -> (ok: bool)
    ensures
        ok == spec_verify_signature(header@, message@),
{
    match signature_header_parts(header) {
        None => false,
        Some((a, b)) => {
            let key = decode_base64(a.as_str());
            let sig = decode_base64(b.as_str());
            match key_and_signature(key, sig) {
                Some((k, s)) => ed25519_verify(k.as_slice(), message, s.as_slice()),
                None => false,
            }
        },
    }
}

} // verus!
