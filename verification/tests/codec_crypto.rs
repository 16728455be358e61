use baybridge::client::build_set_event;
use baybridge::encode::{bytes_to_string, string_to_bytes, encode_verifying_key,
    decode_verifying_key, encode_signing_key, decode_signing_key, hex_string};
use baybridge::errors::Error;
use baybridge::events::{Event, DeletionEvent, SetEvent};
use baybridge::hashing::hash_bytes;
use baybridge::keys::{CryptoKey, generate_signing_key};
use baybridge::models::{Name, Value};
use baybridge::signed::{encode_env, decode_env};

fn fixed_key() -> CryptoKey {
    CryptoKey::from_bytes(vec![7u8; 32]).unwrap()
}

fn set_event(name: &str, value: &[u8], priority: u64, expires_at: Option<u64>) -> Event {
    Event::Put(SetEvent {
        name: Name::new(String::from(name)),
        value: Value::new(value.to_vec()),
        priority,
        expires_at,
    })
}

#[test]
fn envelope_round_trips_through_canonical_encoding() {
    let key = fixed_key();
    let env = key.sign(set_event("greeting", b"hello", 7, Some(123456)));
    let bytes = encode_env(&env);
    let back = decode_env(&bytes).expect("canonical bytes must decode");
    assert_eq!(encode_env(&back), bytes);
    assert_eq!(back.inner.name().as_str(), "greeting");
    assert_eq!(back.inner.priority(), 7);
    assert_eq!(back.inner.expires_at(), Some(123456));
    assert_eq!(back.verifying_key, env.verifying_key);
    assert_eq!(back.signature, env.signature);
}

#[test]
fn deletion_envelope_round_trips() {
    let key = fixed_key();
    let env = key.sign(Event::Delete(DeletionEvent {
        name: Name::new(String::from("gone")),
        priority: 9,
    }));
    let bytes = encode_env(&env);
    let back = decode_env(&bytes).expect("canonical bytes must decode");
    assert_eq!(encode_env(&back), bytes);
    assert_eq!(back.inner.priority(), 9);
    assert!(back.inner.value().is_none());
    assert!(back.inner.expires_at().is_none());
}

#[test]
fn truncated_envelope_is_rejected() {
    let key = fixed_key();
    let env = key.sign(set_event("a", b"x", 1, None));
    let mut bytes = encode_env(&env);
    bytes.pop();
    assert!(decode_env(&bytes).is_none());
    assert!(decode_env(&vec![]).is_none());
    assert!(decode_env(&vec![9u8, 0, 0]).is_none());
}

#[test]
fn signature_verifies_and_byte_flips_break_it() {
    let key = fixed_key();
    let vk = key.verifying();
    let env = key.sign(set_event("a", b"payload", 1, None));
    assert!(env.verify(&vk));

    let mut forged_sig = env.clone();
    forged_sig.signature[0] ^= 1;
    assert!(!forged_sig.verify(&vk));

    let mut forged_inner = env.clone();
    forged_inner.inner = set_event("a", b"paYload", 1, None);
    assert!(!forged_inner.verify(&vk));

    let other = CryptoKey::from_bytes(vec![9u8; 32]).unwrap();
    assert!(!env.verify(&other.verifying()));
}

#[test]
fn generated_keys_sign_and_verify() {
    let key = generate_signing_key();
    let env = key.sign(set_event("n", b"v", 3, None));
    assert!(env.verify(&key.verifying()));
}

#[test]
fn base64_matches_known_vector() {
    let rendered = bytes_to_string(b"hello");
    assert_eq!(rendered.as_str(), "aGVsbG8=");
    let decoded = string_to_bytes("aGVsbG8=").unwrap();
    assert_eq!(decoded, b"hello".to_vec());
}

#[test]
fn base64_rejects_malformed_text() {
    assert!(matches!(string_to_bytes("!!!"), Err(Error::BadEncoding)));
    // Missing padding is non-canonical for this engine.
    assert!(string_to_bytes("aGVsbG8").is_err());
}

#[test]
fn verifying_key_text_round_trips() {
    let key = fixed_key();
    let vk = key.verifying();
    let rendered = encode_verifying_key(&vk);
    let back = decode_verifying_key(rendered.as_str()).unwrap();
    assert_eq!(back.as_bytes(), vk.as_bytes());
}

#[test]
fn verifying_key_decode_rejects_bad_input() {
    assert!(matches!(decode_verifying_key("@@@"), Err(Error::BadEncoding)));
    // Valid base64 of the wrong length.
    let short = bytes_to_string(b"abc");
    assert!(matches!(
        decode_verifying_key(short.as_str()),
        Err(Error::BadEncoding)
    ));
}

#[test]
fn signing_key_text_round_trips() {
    let key = fixed_key();
    let rendered = encode_signing_key(&key);
    let back = decode_signing_key(rendered.as_str()).unwrap();
    assert_eq!(back.secret_bytes(), key.secret_bytes());
    assert!(matches!(decode_signing_key("***"), Err(Error::BadEncoding)));
}

#[test]
fn hex_rendering_matches_known_bytes() {
    assert_eq!(hex_string(&[0x00, 0xff, 0x1a]).as_str(), "00ff1a");
    assert_eq!(hex_string(&[]).as_str(), "");
}

#[test]
fn blake3_digest_matches_known_vector() {
    let digest = hash_bytes(&vec![]);
    assert_eq!(
        digest.to_hex().as_str(),
        "af1349b9f5f9a1a6a0404dea36dcc9499bcb25c9adc112b7cc9a93cae41f3262"
    );
}

#[test]
fn set_event_builder_fills_defaults() {
    let event = build_set_event(
        Name::new(String::from("n")),
        Value::new(b"v".to_vec()),
        None,
        None,
        4242,
    );
    assert_eq!(event.priority(), 4242);
    assert!(event.expires_at().is_none());
    match event.value() {
        Some(v) => assert_eq!(v.as_bytes().to_vec(), b"v".to_vec()),
        None => panic!("a set event carries a value"),
    }
}

#[test]
fn set_event_builder_honours_ttl_and_priority() {
    let event = build_set_event(
        Name::new(String::from("n")),
        Value::new(b"v".to_vec()),
        Some(baybridge::client::Expiry::Ttl(60)),
        Some(9),
        1000,
    );
    assert_eq!(event.priority(), 9);
    assert_eq!(event.expires_at(), Some(1060));
    let event = build_set_event(
        Name::new(String::from("n")),
        Value::new(b"v".to_vec()),
        Some(baybridge::client::Expiry::ExpiresAt(777)),
        None,
        1000,
    );
    assert_eq!(event.expires_at(), Some(777));
}
