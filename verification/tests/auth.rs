use base64::engine::general_purpose::STANDARD;
use base64::Engine;
use ed25519_dalek::{Signer, SigningKey};
use oxi::auth::{key_and_signature, signature_header_parts, verify_signature};

fn header_for(message: &[u8]) -> String {
    let key = SigningKey::from_bytes(&[7u8; 32]);
    let signature = key.sign(message);
    format!("{}:{}", STANDARD.encode(key.verifying_key().to_bytes()), STANDARD.encode(signature.to_bytes()))
}

#[test]
fn signed_request_is_accepted() {
    let header = header_for(b"GET:/api/tags");
    assert!(verify_signature(&header, b"GET:/api/tags"));
    // Text after a second colon is not read.
    assert!(verify_signature(&format!("{header}:ignored"), b"GET:/api/tags"));
}

#[test]
fn signature_over_another_request_is_refused() {
    let header = header_for(b"GET:/api/tags");
    assert!(!verify_signature(&header, b"DELETE:/api/delete"));
}

#[test]
fn malformed_headers_are_refused() {
    assert!(!verify_signature("no-colon-here", b"GET:/"));
    assert!(!verify_signature("!!!:???", b"GET:/"));
    let short = format!("{}:{}", STANDARD.encode([1u8; 31]), STANDARD.encode([2u8; 64]));
    assert!(!verify_signature(&short, b"GET:/"));
    let bad_sig = format!("{}:{}", STANDARD.encode([1u8; 32]), STANDARD.encode([2u8; 63]));
    assert!(!verify_signature(&bad_sig, b"GET:/"));
}

#[test]
fn header_parts_are_the_first_two_pieces() {
    assert_eq!(signature_header_parts("a:b:c"), Some(("a".to_string(), "b".to_string())));
    assert_eq!(signature_header_parts("a:b"), Some(("a".to_string(), "b".to_string())));
    assert_eq!(signature_header_parts(":"), Some((String::new(), String::new())));
    assert_eq!(signature_header_parts("ab"), None);
}

#[test]
fn key_and_signature_need_their_sizes() {
    assert!(key_and_signature(Some(vec![0; 32]), Some(vec![0; 64])).is_some());
    assert!(key_and_signature(Some(vec![0; 33]), Some(vec![0; 64])).is_none());
    assert!(key_and_signature(Some(vec![0; 32]), Some(vec![0; 65])).is_none());
    assert!(key_and_signature(None, Some(vec![0; 64])).is_none());
    assert!(key_and_signature(Some(vec![0; 32]), None).is_none());
}
