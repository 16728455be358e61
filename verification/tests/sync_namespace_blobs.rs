use baybridge::blobs::{ContentBlock, ImmutableStore, content_block_hash, decode_content_block,
    encode_content_block};
use baybridge::client::{NamespaceResponse, build_set_event, namespace_values};
use baybridge::events::Event;
use baybridge::keys::CryptoKey;
use baybridge::models::{Name, Value};
use baybridge::server::dashboard;
use baybridge::signed::Signed;
use baybridge::store::EventStore;
use baybridge::sync::{apply_remote_events, sync_needed};

const NOW: u64 = 2_000_000;

fn key_a() -> CryptoKey {
    CryptoKey::from_bytes(vec![3u8; 32]).unwrap()
}

fn key_b() -> CryptoKey {
    CryptoKey::from_bytes(vec![4u8; 32]).unwrap()
}

fn signed_set(key: &CryptoKey, name: &str, value: &[u8], priority: u64) -> Signed<Event> {
    key.sign(build_set_event(
        Name::new(String::from(name)),
        Value::new(value.to_vec()),
        None,
        Some(priority),
        NOW,
    ))
}

#[test]
fn pair_sync_converges_to_the_union() {
    let a = key_a();
    let b = key_b();
    let mut p1 = EventStore::new();
    let mut p2 = EventStore::new();
    p1.insert_event(signed_set(&a, "a", b"x", 1));
    p2.insert_event(signed_set(&b, "b", b"y", 1));

    let from_p2 = p2.signed_events(NOW);
    let from_p1 = p1.signed_events(NOW);
    assert_eq!(apply_remote_events(&mut p1, "http://p2", from_p2), 1);
    assert_eq!(apply_remote_events(&mut p2, "http://p1", from_p1), 1);

    assert_eq!(p1.event_count(), 2);
    assert_eq!(p2.event_count(), 2);
    let l1 = p1.signed_events(NOW);
    let l2 = p2.signed_events(NOW);
    assert_eq!(l1.len(), 2);
    for (e1, e2) in l1.iter().zip(l2.iter()) {
        assert_eq!(
            baybridge::signed::encode_env(e1),
            baybridge::signed::encode_env(e2)
        );
    }
    assert!(p1.current_state_hash(NOW).matches(&p2.current_state_hash(NOW)));
}

#[test]
fn ingesting_over_two_paths_keeps_one_copy() {
    let a = key_a();
    let env = signed_set(&a, "a", b"x", 1);
    let mut store = EventStore::new();
    // Once over the client write path, once over a sync pull.
    assert_eq!(
        baybridge::server::ingest_signed_event(&mut store, env.clone(), &a.verifying()),
        Ok(1)
    );
    assert_eq!(apply_remote_events(&mut store, "http://p", vec![env]), 1);
    assert_eq!(store.event_count(), 1);
}

#[test]
fn sync_pull_drops_forged_envelopes() {
    let a = key_a();
    let mut forged = signed_set(&a, "a", b"x", 1);
    forged.signature[0] ^= 1;
    let honest = signed_set(&a, "b", b"y", 1);
    let mut store = EventStore::new();
    let accepted = apply_remote_events(&mut store, "http://p", vec![forged, honest]);
    assert_eq!(accepted, 1);
    assert_eq!(store.event_count(), 1);
}

#[test]
fn sync_skip_decision_compares_hashes() {
    let mut store = EventStore::new();
    let a = key_a();
    store.insert_event(signed_set(&a, "a", b"x", 1));
    let remote = store.current_state_hash(NOW);
    assert!(sync_needed(&None, &remote));
    assert!(!sync_needed(&Some(remote.clone()), &remote));
    let empty = EventStore::new().current_state_hash(NOW);
    assert!(sync_needed(&Some(empty), &remote));
}

#[test]
fn namespace_groups_by_author() {
    let a = key_a();
    let b = key_b();
    let mut store = EventStore::new();
    store.insert_event(signed_set(&a, "site", b"from-a", 1));
    store.insert_event(signed_set(&b, "site", b"from-b", 1));
    store.insert_event(signed_set(&a, "other", b"unrelated", 1));

    let events = store.events_by_namespace(&Name::new(String::from("site")), NOW);
    assert_eq!(events.len(), 2);
    let resolved = namespace_values(String::from("site"), events, NOW);
    assert_eq!(resolved.namespace.as_str(), "site");
    assert_eq!(resolved.mapping.len(), 2);
    for (vk, value) in resolved.mapping.iter() {
        if vk.same_key(&a.verifying()) {
            assert_eq!(value.as_bytes().to_vec(), b"from-a".to_vec());
        } else {
            assert!(vk.same_key(&b.verifying()));
            assert_eq!(value.as_bytes().to_vec(), b"from-b".to_vec());
        }
    }
}

#[test]
fn namespace_responses_merge_in_order() {
    let a = key_a();
    let r1 = NamespaceResponse {
        namespace: String::from("site"),
        events: vec![signed_set(&a, "site", b"one", 1)],
    };
    let r2 = NamespaceResponse {
        namespace: String::from("site"),
        events: vec![signed_set(&a, "site", b"two", 2)],
    };
    let merged = NamespaceResponse::merge_vec(vec![r1, r2]).unwrap();
    assert_eq!(merged.namespace.as_str(), "site");
    assert_eq!(merged.events.len(), 2);
    assert!(NamespaceResponse::merge_vec(vec![]).is_none());
}

#[test]
fn dashboard_summarises_the_store() {
    let a = key_a();
    let mut store = EventStore::new();
    store.insert_event(signed_set(&a, "a", b"x", 1));
    let board = dashboard(&store, 3, String::from("test-build"), NOW);
    assert_eq!(board.event_count, 1);
    assert_eq!(board.peer_count, 3);
    assert_eq!(board.version.as_str(), "test-build");
    assert_eq!(board.state_hash.len(), 12);
    let full = store.current_state_hash(NOW).hash.to_hex();
    assert_eq!(&full.as_str()[..12], board.state_hash.as_str());
}

#[test]
fn content_block_round_trips() {
    let inner = ContentBlock { data: b"leaf".to_vec(), references: vec![] };
    let leaf_hash = content_block_hash(&inner);
    let block = ContentBlock {
        data: b"root".to_vec(),
        references: vec![leaf_hash],
    };
    let bytes = encode_content_block(&block);
    let back = decode_content_block(&bytes).expect("canonical block bytes decode");
    assert_eq!(encode_content_block(&back), bytes);
    assert_eq!(back.data, b"root".to_vec());
    assert_eq!(back.references.len(), 1);
    assert!(decode_content_block(&vec![1u8, 2, 3]).is_none());
}

#[test]
fn immutable_store_is_write_once_and_content_addressed() {
    let mut store = ImmutableStore::new();
    let block = ContentBlock { data: b"hello".to_vec(), references: vec![] };
    let h1 = store.set(&block);
    let h2 = store.set(&block);
    assert!(h1.same_hash(&h2));
    assert!(h1.same_hash(&content_block_hash(&block)));

    let got = store.get(&h1).expect("a written block can be read back");
    assert_eq!(got.data, b"hello".to_vec());
    assert!(got.references.is_empty());

    let other = content_block_hash(&ContentBlock { data: b"absent".to_vec(), references: vec![] });
    assert!(store.get(&other).is_none());
}

#[test]
fn distinct_blocks_get_distinct_addresses() {
    let b1 = ContentBlock { data: b"one".to_vec(), references: vec![] };
    let b2 = ContentBlock { data: b"two".to_vec(), references: vec![] };
    assert!(!content_block_hash(&b1).same_hash(&content_block_hash(&b2)));
}
