use readnode_core::cache::StateCache;
use readnode_core::codec::{encode_access_key, encode_account, AccessKey, AccessKeyPermission, Account};
use readnode_core::errors::{CacheReply, DecodeError, QueryError, RunContractError};
use readnode_core::executor::{
    finish_view_call, prepare_from_replies, prepare_view_call, EngineResult, Outcome,
    StorageAdapter, MAX_GAS_BURNT,
};
use readnode_core::ids::AccountId;
use readnode_core::keys::Scope;
use readnode_core::queries::{
    decode_access_key_reply, decode_account_reply, decode_code_reply, fetch_access_key,
    fetch_account, fetch_code,
};
use readnode_core::snapshot::ContentHash;

fn account_id(name: &str) -> AccountId {
    AccountId::new(name.as_bytes().to_vec()).unwrap()
}

fn hash(tag: u8) -> ContentHash {
    ContentHash::new(vec![tag; 32])
}

fn sample_account() -> Account {
    Account { amount: 1_000, locked: 50, code_hash: vec![8u8; 32], storage_usage: 777 }
}

fn cache_with_account(id: &AccountId, height: u64) -> StateCache {
    let mut cache = StateCache::new();
    let bytes = encode_account(&sample_account());
    cache.record(Scope::Account, id, None, height, &hash(1), &bytes);
    cache
}

#[test]
fn run_without_code_returns_code_not_found() {
    let alice = account_id("alice.near");
    let cache = cache_with_account(&alice, 10);
    let args: Vec<u8> = Vec::new();
    let r = prepare_view_call(&cache, &alice, &args, 20, 1_700_000_000);
    assert_eq!(r.err(), Some(RunContractError::CodeNotFound));
}

#[test]
fn run_without_account_returns_not_found() {
    let alice = account_id("alice.near");
    let cache = StateCache::new();
    let args: Vec<u8> = Vec::new();
    let r = prepare_view_call(&cache, &alice, &args, 20, 0);
    assert_eq!(r.err(), Some(RunContractError::NotFound));
}

#[test]
fn malformed_account_record_is_a_deserialization_error() {
    let alice = account_id("alice.near");
    let mut cache = StateCache::new();
    cache.record(Scope::Account, &alice, None, 10, &hash(1), &vec![1, 2, 3]);
    let args: Vec<u8> = Vec::new();
    let r = prepare_view_call(&cache, &alice, &args, 20, 0);
    assert_eq!(r.err(), Some(RunContractError::DeserializationError));
}

#[test]
fn prepared_context_is_assembled_exactly() {
    let alice = account_id("alice.near");
    let mut cache = cache_with_account(&alice, 10);
    cache.record(Scope::Code, &alice, None, 10, &hash(2), &b"wasm".to_vec());
    let args = vec![4u8, 5, 6];
    let p = prepare_view_call(&cache, &alice, &args, 25, 1_700_000_000).unwrap();
    assert_eq!(p.code.code, b"wasm".to_vec());
    let c = &p.context;
    assert_eq!(c.current_account_id.as_bytes(), &b"alice.near".to_vec());
    assert_eq!(c.signer_account_id.as_bytes(), &b"alice.near".to_vec());
    assert_eq!(c.predecessor_account_id.as_bytes(), &b"alice.near".to_vec());
    assert_eq!(c.signer_public_key, Vec::<u8>::new());
    // input is the canonical length-prefixed serialization of the arguments
    assert_eq!(c.input, vec![3, 0, 0, 0, 4, 5, 6]);
    assert_eq!(c.block_height, 25);
    assert_eq!(c.block_timestamp, 1_700_000_000);
    assert_eq!(c.epoch_height, 0);
    assert_eq!(c.account_balance, 1_000);
    assert_eq!(c.account_locked_balance, 50);
    assert_eq!(c.storage_usage, 777);
    assert_eq!(c.attached_deposit, 0);
    assert_eq!(c.prepaid_gas, 0);
    assert_eq!(c.random_seed, Vec::<u8>::new());
    assert_eq!(c.max_gas_burnt, MAX_GAS_BURNT);
    assert_eq!(MAX_GAS_BURNT, 300_000_000_000_000);
}

#[test]
fn code_deployed_later_is_invisible_at_an_earlier_height() {
    let alice = account_id("alice.near");
    let mut cache = cache_with_account(&alice, 10);
    cache.record(Scope::Code, &alice, None, 30, &hash(2), &b"wasm".to_vec());
    let args: Vec<u8> = Vec::new();
    // At height 20 the account exists but the code does not yet.
    let r = prepare_view_call(&cache, &alice, &args, 20, 0);
    assert_eq!(r.err(), Some(RunContractError::CodeNotFound));
    assert!(prepare_view_call(&cache, &alice, &args, 30, 0).is_ok());
}

#[test]
fn storage_adapter_reads_the_bound_height() {
    let alice = account_id("alice.near");
    let mut cache = StateCache::new();
    let slot = b"counter".to_vec();
    cache.record(Scope::ContractStorage, &alice, Some(&slot), 10, &hash(1), &b"1".to_vec());
    cache.record(Scope::ContractStorage, &alice, Some(&slot), 20, &hash(2), &b"2".to_vec());
    // The adapter is bound to the earlier height: the engine sees the value
    // recorded then, not the later overwrite.
    let adapter = StorageAdapter::new(account_id("alice.near"), 15);
    assert_eq!(adapter.storage_read(&cache, &slot), b"1".to_vec());
    let adapter_late = StorageAdapter::new(account_id("alice.near"), 20);
    assert_eq!(adapter_late.storage_read(&cache, &slot), b"2".to_vec());
}

#[test]
fn finish_preserves_outcome_and_abort_reason() {
    let outcome = Outcome { return_bytes: vec![1, 2], logs: vec![b"log-line".to_vec()], gas_burnt: 42 };
    let ok = finish_view_call(EngineResult::Done(outcome)).unwrap();
    assert_eq!(ok.return_bytes, vec![1, 2]);
    assert_eq!(ok.logs, vec![b"log-line".to_vec()]);
    assert_eq!(ok.gas_burnt, 42);
    let aborted = finish_view_call(EngineResult::Aborted(b"method not found".to_vec()));
    assert_eq!(aborted.err(), Some(RunContractError::Aborted(b"method not found".to_vec())));
}

#[test]
fn outage_is_distinguished_from_absence() {
    let alice = account_id("alice.near");
    let args: Vec<u8> = Vec::new();
    let r = prepare_from_replies(&alice, CacheReply::Unavailable, CacheReply::Payload(Vec::new()), &args, 1, 0);
    assert_eq!(r.err(), Some(RunContractError::CacheUnavailable));
    let acct = encode_account(&sample_account());
    let r = prepare_from_replies(&alice, CacheReply::Payload(acct.clone()), CacheReply::Unavailable, &args, 1, 0);
    assert_eq!(r.err(), Some(RunContractError::CacheUnavailable));
    let r = prepare_from_replies(&alice, CacheReply::Payload(Vec::new()), CacheReply::Payload(Vec::new()), &args, 1, 0);
    assert_eq!(r.err(), Some(RunContractError::NotFound));
    let r = prepare_from_replies(&alice, CacheReply::Payload(acct.clone()), CacheReply::Payload(Vec::new()), &args, 1, 0);
    assert_eq!(r.err(), Some(RunContractError::CodeNotFound));
    let r = prepare_from_replies(&alice, CacheReply::Payload(acct), CacheReply::Payload(b"wasm".to_vec()), &args, 1, 0);
    assert!(r.is_ok());
}

#[test]
fn typed_fetches_compose_resolution_and_decoding() {
    let alice = account_id("alice.near");
    let cache = cache_with_account(&alice, 10);
    let a = fetch_account(&cache, &alice, 15).unwrap();
    assert_eq!(a.amount, 1_000);
    assert!(matches!(fetch_account(&cache, &alice, 5), Err(DecodeError::NotFound)));
    let key_data = b"ed25519-pk".to_vec();
    assert!(matches!(
        fetch_access_key(&cache, &alice, 15, &key_data),
        Err(DecodeError::NotFound)
    ));
}

#[test]
fn account_id_validation() {
    assert!(AccountId::new(b"alice.near".to_vec()).is_ok());
    assert!(AccountId::new(b"a-b_c.d9".to_vec()).is_ok());
    assert!(AccountId::new(b"a".to_vec()).is_err()); // too short
    assert!(AccountId::new(b"Alice".to_vec()).is_err()); // upper case
    assert!(AccountId::new(b".alice".to_vec()).is_err()); // leading separator
    assert!(AccountId::new(b"alice.".to_vec()).is_err()); // trailing separator
    assert!(AccountId::new(b"a..b".to_vec()).is_err()); // adjacent separators
    assert!(AccountId::new(b"a:b".to_vec()).is_err()); // forbidden byte
    assert!(AccountId::new(vec![b'x'; 65]).is_err()); // too long
}

#[test]
fn recorded_access_key_fetches_and_decodes() {
    let alice = account_id("alice.near");
    let mut cache = StateCache::new();
    let key_data = b"ed25519-pk".to_vec();
    let stored = AccessKey {
        nonce: 9,
        permission: AccessKeyPermission::FunctionCall {
            allowance: None,
            receiver_id: b"dex.near".to_vec(),
            method_names: vec![b"swap".to_vec()],
        },
    };
    let bytes = encode_access_key(&stored);
    cache.record(Scope::AccessKey, &alice, Some(&key_data), 12, &hash(3), &bytes);
    let got = fetch_access_key(&cache, &alice, 15, &key_data).unwrap();
    assert_eq!(got.nonce, 9);
    assert_eq!(encode_access_key(&got), bytes);
    // Before the key was recorded there is nothing to find.
    assert!(matches!(fetch_access_key(&cache, &alice, 11, &key_data), Err(DecodeError::NotFound)));
}

#[test]
fn recorded_code_fetches_at_or_after_its_height() {
    let alice = account_id("alice.near");
    let mut cache = StateCache::new();
    cache.record(Scope::Code, &alice, None, 30, &hash(2), &b"wasm-v1".to_vec());
    assert!(matches!(fetch_code(&cache, &alice, 29), Err(DecodeError::NotFound)));
    let code = fetch_code(&cache, &alice, 30).unwrap();
    assert_eq!(code.code, b"wasm-v1".to_vec());
    assert!(code.hash.is_none());
}

#[test]
fn reply_decoders_distinguish_outage_from_absence() {
    assert_eq!(
        decode_account_reply(CacheReply::Unavailable).err(),
        Some(QueryError::CacheUnavailable)
    );
    assert!(matches!(
        decode_access_key_reply(CacheReply::Unavailable),
        Err(QueryError::CacheUnavailable)
    ));
    assert!(matches!(
        decode_code_reply(CacheReply::Unavailable),
        Err(QueryError::CacheUnavailable)
    ));
    assert_eq!(
        decode_account_reply(CacheReply::Payload(Vec::new())).err(),
        Some(QueryError::NotFound)
    );
    assert!(matches!(
        decode_access_key_reply(CacheReply::Payload(vec![9])),
        Err(QueryError::DeserializationError)
    ));
    assert!(matches!(
        decode_code_reply(CacheReply::Payload(Vec::new())),
        Err(QueryError::NotFound)
    ));
    let stored = AccessKey { nonce: 3, permission: AccessKeyPermission::FullAccess };
    let bytes = encode_access_key(&stored);
    let got = decode_access_key_reply(CacheReply::Payload(bytes)).unwrap();
    assert_eq!(got.nonce, 3);
}
