use baybridge::client::{build_deletion_event, build_set_event, resolve_events};
use baybridge::crdt::merge_events;
use baybridge::errors::Error;
use baybridge::events::Event;
use baybridge::keys::CryptoKey;
use baybridge::models::{Name, Value};
use baybridge::server::ingest_signed_event;
use baybridge::signed::{Signed, encode_env};
use baybridge::store::EventStore;

const NOW: u64 = 1_000_000;

fn key_a() -> CryptoKey {
    CryptoKey::from_bytes(vec![1u8; 32]).unwrap()
}

fn key_b() -> CryptoKey {
    CryptoKey::from_bytes(vec![2u8; 32]).unwrap()
}

fn signed_set(key: &CryptoKey, name: &str, value: &[u8], priority: u64) -> Signed<Event> {
    signed_set_expiring(key, name, value, priority, None)
}

fn signed_set_expiring(
    key: &CryptoKey,
    name: &str,
    value: &[u8],
    priority: u64,
    expires_at: Option<u64>,
) -> Signed<Event> {
    let expiry = expires_at.map(baybridge::client::Expiry::ExpiresAt);
    key.sign(build_set_event(
        Name::new(String::from(name)),
        Value::new(value.to_vec()),
        expiry,
        Some(priority),
        NOW,
    ))
}

fn signed_delete(key: &CryptoKey, name: &str, priority: u64) -> Signed<Event> {
    key.sign(build_deletion_event(
        Name::new(String::from(name)),
        Some(priority),
        NOW,
    ))
}

fn read(store: &EventStore, key: &CryptoKey, name: &str) -> Result<Value, Error> {
    let events = store.events_by_key_and_name(&key.verifying(), &Name::new(String::from(name)), NOW);
    resolve_events(events, NOW)
}

#[test]
fn set_then_get_returns_the_value() {
    let key = key_a();
    let mut store = EventStore::new();
    let inserted = store.insert_event(signed_set(&key, "a", b"hello", 1));
    assert_eq!(inserted, 1);
    let value = read(&store, &key, "a").unwrap();
    assert_eq!(value.as_bytes().to_vec(), b"hello".to_vec());
}

#[test]
fn insert_is_idempotent() {
    let key = key_a();
    let mut store = EventStore::new();
    let env = signed_set(&key, "a", b"hello", 1);
    assert_eq!(store.insert_event(env.clone()), 1);
    assert_eq!(store.event_count(), 1);
    assert_eq!(store.insert_event(env), 0);
    assert_eq!(store.event_count(), 1);
}

#[test]
fn higher_priority_wins_and_suppresses_stale() {
    let key = key_a();
    let mut store = EventStore::new();
    assert_eq!(store.insert_event(signed_set(&key, "a", b"x", 1)), 1);
    assert_eq!(store.insert_event(signed_set(&key, "a", b"y", 2)), 1);
    assert_eq!(store.event_count(), 1);
    let value = read(&store, &key, "a").unwrap();
    assert_eq!(value.as_bytes().to_vec(), b"y".to_vec());
}

#[test]
fn lower_priority_is_dropped() {
    let key = key_a();
    let mut store = EventStore::new();
    assert_eq!(store.insert_event(signed_set(&key, "a", b"x", 5)), 1);
    assert_eq!(store.insert_event(signed_set(&key, "a", b"y", 2)), 0);
    assert_eq!(store.event_count(), 1);
    let value = read(&store, &key, "a").unwrap();
    assert_eq!(value.as_bytes().to_vec(), b"x".to_vec());
}

#[test]
fn equal_priority_tiebreak_is_deterministic() {
    let key = key_a();
    let e_y = signed_set(&key, "a", b"y", 2);
    let e_z = signed_set(&key, "a", b"z", 2);
    // Pin the expected winner from the fixed envelopes: the larger encoding.
    let enc_y = encode_env(&e_y);
    let enc_z = encode_env(&e_z);
    assert_ne!(enc_y, enc_z);
    let expected: &[u8] = if enc_y > enc_z { b"y" } else { b"z" };

    let mut forward = EventStore::new();
    forward.insert_event(e_y.clone());
    forward.insert_event(e_z.clone());
    let mut backward = EventStore::new();
    backward.insert_event(e_z);
    backward.insert_event(e_y);

    assert_eq!(forward.event_count(), 1);
    assert_eq!(backward.event_count(), 1);
    let v1 = read(&forward, &key, "a").unwrap();
    let v2 = read(&backward, &key, "a").unwrap();
    assert_eq!(v1.as_bytes().to_vec(), expected.to_vec());
    assert_eq!(v2.as_bytes().to_vec(), expected.to_vec());
}

#[test]
fn delete_tombstone_beats_earlier_set() {
    let key = key_a();
    let mut store = EventStore::new();
    store.insert_event(signed_set(&key, "a", b"x", 1));
    store.insert_event(signed_delete(&key, "a", 2));
    assert!(matches!(read(&store, &key, "a"), Err(Error::NotFound)));
}

#[test]
fn earlier_delete_loses_to_later_set() {
    let key = key_a();
    let mut store = EventStore::new();
    store.insert_event(signed_delete(&key, "a", 1));
    store.insert_event(signed_set(&key, "a", b"x", 2));
    let value = read(&store, &key, "a").unwrap();
    assert_eq!(value.as_bytes().to_vec(), b"x".to_vec());
}

#[test]
fn merge_prefers_the_dominant_event() {
    let key = key_a();
    let merged = merge_events(
        vec![
            signed_set(&key, "a", b"v1", 1),
            signed_delete(&key, "a", 2),
        ],
        NOW,
    );
    assert!(merged.is_none());
    let merged = merge_events(
        vec![
            signed_set(&key, "a", b"v1", 2),
            signed_delete(&key, "a", 1),
        ],
        NOW,
    );
    assert_eq!(merged.unwrap().as_bytes().to_vec(), b"v1".to_vec());
}

#[test]
fn expired_event_is_invisible_and_swept() {
    let key = key_a();
    let mut store = EventStore::new();
    store.insert_event(signed_set_expiring(&key, "a", b"x", 1, Some(NOW - 1)));
    assert_eq!(store.event_count(), 1);
    // Invisible to reads (the store filters, so the read sees nothing),
    // to the namespace and to the state hash.
    assert!(matches!(read(&store, &key, "a"), Err(Error::NotFound)));
    assert!(store
        .events_by_namespace(&Name::new(String::from("a")), NOW)
        .is_empty());
    let empty = EventStore::new();
    assert!(store.current_state_hash(NOW).matches(&empty.current_state_hash(NOW)));
    // The sweep purges it.
    let removed = store.delete_expired_events(NOW);
    assert_eq!(removed, 1);
    assert_eq!(store.event_count(), 0);
    assert!(store
        .events_by_key_and_name(&key.verifying(), &Name::new(String::from("a")), NOW)
        .is_empty());
}

#[test]
fn expiry_boundary_is_inclusive() {
    let key = key_a();
    let mut store = EventStore::new();
    store.insert_event(signed_set_expiring(&key, "a", b"x", 1, Some(NOW)));
    assert!(read(&store, &key, "a").is_err());
    let mut later = EventStore::new();
    later.insert_event(signed_set_expiring(&key, "a", b"x", 1, Some(NOW + 1)));
    assert!(read(&later, &key, "a").is_ok());
}

#[test]
fn resolve_distinguishes_missing_and_expired() {
    assert!(matches!(resolve_events(vec![], NOW), Err(Error::NotFound)));
    let key = key_a();
    let expired = vec![signed_set_expiring(&key, "a", b"x", 1, Some(NOW - 5))];
    assert!(matches!(resolve_events(expired, NOW), Err(Error::ValueExpired)));
    let deleted = vec![signed_delete(&key, "a", 3)];
    assert!(matches!(resolve_events(deleted, NOW), Err(Error::NotFound)));
}

#[test]
fn ingress_rejects_forged_envelopes() {
    let key = key_a();
    let path_key = key.verifying();
    let mut store = EventStore::new();

    let mut forged = signed_set(&key, "a", b"x", 1);
    forged.signature[10] ^= 0x40;
    assert!(matches!(
        ingest_signed_event(&mut store, forged, &path_key),
        Err(Error::BadSignature)
    ));
    assert_eq!(store.event_count(), 0);

    let mut altered = signed_set(&key, "a", b"x", 1);
    altered.inner = build_set_event(
        Name::new(String::from("a")),
        Value::new(b"X".to_vec()),
        None,
        Some(1),
        NOW,
    );
    assert!(matches!(
        ingest_signed_event(&mut store, altered, &path_key),
        Err(Error::BadSignature)
    ));
    assert_eq!(store.event_count(), 0);
}

#[test]
fn ingress_rejects_key_mismatch_and_accepts_honest_writes() {
    let key = key_a();
    let other = key_b();
    let mut store = EventStore::new();
    let env = signed_set(&key, "a", b"x", 1);
    assert!(matches!(
        ingest_signed_event(&mut store, env.clone(), &other.verifying()),
        Err(Error::BadSignature)
    ));
    assert_eq!(store.event_count(), 0);
    assert_eq!(ingest_signed_event(&mut store, env, &key.verifying()), Ok(1));
    assert_eq!(store.event_count(), 1);
}

#[test]
fn same_name_under_different_keys_is_unrelated() {
    let a = key_a();
    let b = key_b();
    let mut store = EventStore::new();
    store.insert_event(signed_set(&a, "shared", b"from-a", 1));
    store.insert_event(signed_set(&b, "shared", b"from-b", 9));
    assert_eq!(store.event_count(), 2);
    let va = read(&store, &a, "shared").unwrap();
    let vb = read(&store, &b, "shared").unwrap();
    assert_eq!(va.as_bytes().to_vec(), b"from-a".to_vec());
    assert_eq!(vb.as_bytes().to_vec(), b"from-b".to_vec());
}

#[test]
fn peer_last_hash_is_upserted() {
    let mut store = EventStore::new();
    assert!(store.get_peer_last_hash("http://peer").is_none());
    let h1 = store.current_state_hash(NOW);
    store.set_peer_last_hash("http://peer", h1.clone());
    assert!(store.get_peer_last_hash("http://peer").unwrap().matches(&h1));
    let key = key_a();
    store.insert_event(signed_set(&key, "a", b"x", 1));
    let h2 = store.current_state_hash(NOW);
    assert!(!h2.matches(&h1));
    store.set_peer_last_hash("http://peer", h2.clone());
    assert!(store.get_peer_last_hash("http://peer").unwrap().matches(&h2));
    assert!(store.get_peer_last_hash("http://other").is_none());
}
