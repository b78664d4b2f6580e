use readnode_core::cache::StateCache;
use readnode_core::enumerate::{enumerate, ScanSession, MAX_LIMIT};
use readnode_core::errors::FetchError;
use readnode_core::ids::AccountId;
use readnode_core::keys::{build_field_set_key, build_snapshot_key, Scope};
use readnode_core::queries::fetch_state;
use readnode_core::snapshot::{ContentHash, SnapshotIndex};

fn account(name: &str) -> AccountId {
    AccountId::new(name.as_bytes().to_vec()).unwrap()
}

fn hash(tag: u8) -> ContentHash {
    ContentHash::new(vec![tag; 32])
}

#[test]
fn resolve_picks_greatest_height_at_or_below() {
    let mut index = SnapshotIndex::new();
    index.record(100, hash(1));
    index.record(200, hash(2));
    index.record(300, hash(3));
    assert_eq!(index.resolve(250).unwrap().as_bytes(), &vec![2u8; 32]);
    assert_eq!(index.resolve(300).unwrap().as_bytes(), &vec![3u8; 32]);
    assert_eq!(index.resolve(1000).unwrap().as_bytes(), &vec![3u8; 32]);
    assert_eq!(index.resolve(100).unwrap().as_bytes(), &vec![1u8; 32]);
    assert!(index.resolve(99).is_none());
}

#[test]
fn resolve_and_fetch_are_idempotent() {
    let mut index = SnapshotIndex::new();
    index.record(10, hash(4));
    let first = index.resolve(15).map(|c| c.as_bytes().clone());
    let second = index.resolve(15).map(|c| c.as_bytes().clone());
    assert_eq!(first, second);

    let mut cache = StateCache::new();
    let alice = account("alice.near");
    cache.record(Scope::Account, &alice, None, 10, &hash(5), &vec![1, 2, 3]);
    let a = cache.fetch_versioned(Scope::Account, &alice, None, 12);
    let b = cache.fetch_versioned(Scope::Account, &alice, None, 12);
    assert_eq!(a, b);
    assert_eq!(a, vec![1, 2, 3]);
}

#[test]
fn versioned_fetch_returns_value_at_requested_height() {
    let mut cache = StateCache::new();
    let alice = account("alice.near");
    let slot = b"slot".to_vec();
    cache.record(Scope::ContractStorage, &alice, Some(&slot), 10, &hash(1), &b"old-value".to_vec());
    cache.record(Scope::ContractStorage, &alice, Some(&slot), 20, &hash(2), &b"new-value".to_vec());
    // A read at a height between the two snapshots sees the earlier value,
    // never the later overwrite.
    assert_eq!(cache.fetch_versioned(Scope::ContractStorage, &alice, Some(&slot), 15), b"old-value".to_vec());
    assert_eq!(cache.fetch_versioned(Scope::ContractStorage, &alice, Some(&slot), 20), b"new-value".to_vec());
    assert_eq!(cache.fetch_versioned(Scope::ContractStorage, &alice, Some(&slot), 9), Vec::<u8>::new());
}

#[test]
fn fetch_by_hash_is_content_addressed() {
    let mut cache = StateCache::new();
    let alice = account("alice.near");
    cache.record(Scope::Code, &alice, None, 7, &hash(9), &b"wasm-bytes".to_vec());
    assert_eq!(cache.fetch(Scope::Code, &alice, &hash(9), None), b"wasm-bytes".to_vec());
    assert_eq!(cache.fetch(Scope::Code, &alice, &hash(8), None), Vec::<u8>::new());
}

#[test]
fn scopes_and_accounts_do_not_collide() {
    let mut cache = StateCache::new();
    let alice = account("alice.near");
    let bob = account("bob.near");
    cache.record(Scope::Account, &alice, None, 5, &hash(1), &b"alice-acct".to_vec());
    cache.record(Scope::Code, &alice, None, 5, &hash(2), &b"alice-code".to_vec());
    cache.record(Scope::Account, &bob, None, 5, &hash(3), &b"bob-acct".to_vec());
    assert_eq!(cache.fetch_versioned(Scope::Account, &alice, None, 9), b"alice-acct".to_vec());
    assert_eq!(cache.fetch_versioned(Scope::Code, &alice, None, 9), b"alice-code".to_vec());
    assert_eq!(cache.fetch_versioned(Scope::Account, &bob, None, 9), b"bob-acct".to_vec());
    assert_eq!(cache.fetch_versioned(Scope::Code, &bob, None, 9), Vec::<u8>::new());
}

#[test]
fn key_builders_are_stable_and_distinct() {
    let alice = account("alice.near");
    let bob = account("bob.near");
    let sub = b"s1".to_vec();
    let k1 = build_snapshot_key(Scope::Account, &alice, None);
    let k2 = build_snapshot_key(Scope::Account, &alice, None);
    assert_eq!(k1, k2);
    assert_ne!(k1, build_snapshot_key(Scope::Code, &alice, None));
    assert_ne!(k1, build_snapshot_key(Scope::Account, &bob, None));
    assert_ne!(k1, build_snapshot_key(Scope::Account, &alice, Some(&sub)));
    assert_ne!(
        build_snapshot_key(Scope::AccessKey, &alice, Some(&sub)),
        build_snapshot_key(Scope::ContractStorage, &alice, Some(&sub))
    );
    assert_eq!(build_field_set_key(Scope::ContractStorage, &alice), b"d:alice.near".to_vec());
}

#[test]
fn enumeration_returns_all_five_keys() {
    let mut cache = StateCache::new();
    let alice = account("alice.near");
    for i in 0u8..5 {
        let key = vec![b'k', i];
        let value = vec![b'v', i];
        cache.record(Scope::ContractStorage, &alice, Some(&key), 10, &hash(i), &value);
    }
    let no_prefix: Vec<u8> = Vec::new();
    let result = enumerate(&cache, &alice, 50, &no_prefix);
    assert!(result.complete);
    assert_eq!(result.entries.len(), 5);
    for i in 0u8..5 {
        assert_eq!(result.entries[i as usize].0, vec![b'k', i]);
        assert_eq!(result.entries[i as usize].1, vec![b'v', i]);
    }
}

#[test]
fn enumeration_respects_prefix_and_height() {
    let mut cache = StateCache::new();
    let alice = account("alice.near");
    cache.record(Scope::ContractStorage, &alice, Some(&b"aa1".to_vec()), 10, &hash(1), &b"x".to_vec());
    cache.record(Scope::ContractStorage, &alice, Some(&b"aa2".to_vec()), 30, &hash(2), &b"y".to_vec());
    cache.record(Scope::ContractStorage, &alice, Some(&b"bb1".to_vec()), 10, &hash(3), &b"z".to_vec());
    let result = enumerate(&cache, &alice, 20, &b"aa".to_vec());
    assert!(result.complete);
    // aa2 was only recorded at height 30, so a read at 20 does not see it.
    assert_eq!(result.entries.len(), 1);
    assert_eq!(result.entries[0].0, b"aa1".to_vec());
    assert_eq!(result.entries[0].1, b"x".to_vec());
}

#[test]
fn enumeration_truncates_when_storage_outgrows_the_cap() {
    let mut cache = StateCache::new();
    let alice = account("alice.near");
    let total: usize = 1100; // more than one page, far more than MAX_LIMIT
    for i in 0..total {
        let key = vec![b'k', (i / 256) as u8, (i % 256) as u8];
        cache.record(Scope::ContractStorage, &alice, Some(&key), 10, &hash(1), &b"v".to_vec());
    }
    let no_prefix: Vec<u8> = Vec::new();
    let result = enumerate(&cache, &alice, 50, &no_prefix);
    assert!(!result.complete);
    assert!(result.entries.len() > MAX_LIMIT);
    assert!(result.entries.len() <= MAX_LIMIT + 1000);
    assert!(result.entries.len() < total);
}

#[test]
fn fetch_state_reports_not_found_only_when_nothing_is_recorded() {
    let mut cache = StateCache::new();
    let alice = account("alice.near");
    let no_prefix: Vec<u8> = Vec::new();
    assert_eq!(
        fetch_state(&cache, &alice, 10, &no_prefix).err(),
        Some(FetchError::NotFound)
    );
    cache.record(Scope::ContractStorage, &alice, Some(&b"k".to_vec()), 5, &hash(1), &b"v".to_vec());
    let state = fetch_state(&cache, &alice, 10, &no_prefix).unwrap();
    assert!(state.complete);
    assert_eq!(state.entries.len(), 1);
}

#[test]
fn scan_session_keeps_nonempty_and_stops_on_wrap() {
    let mut session = ScanSession::start();
    let page = vec![
        (b"a".to_vec(), b"1".to_vec()),
        (b"b".to_vec(), Vec::new()), // deleted at this height: dropped
        (b"c".to_vec(), b"3".to_vec()),
    ];
    let more = session.on_page(page, false);
    assert!(more);
    assert_eq!(session.items.len(), 2);
    assert_eq!(session.items[0].0, b"a".to_vec());
    assert_eq!(session.items[1].0, b"c".to_vec());
    // The cursor wrapped around: the scan is over regardless of the caps.
    let more = session.on_page(Vec::new(), true);
    assert!(!more);
    assert_eq!(session.steps, 2);
}
