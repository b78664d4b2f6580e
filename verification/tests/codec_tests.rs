use readnode_core::codec::{
    decode_access_key, decode_account, decode_contract_code, encode_access_key, encode_account,
    AccessKey, AccessKeyPermission, Account,
};
use readnode_core::errors::DecodeError;

fn sample_account() -> Account {
    Account {
        amount: 340_282_366_920_938_463_463_374_607_431_768_211_455u128 - 17,
        locked: 12_345_678_901_234_567_890u128,
        code_hash: vec![9u8; 32],
        storage_usage: 4_096,
    }
}

#[test]
fn account_encoding_layout_is_exact() {
    let a = Account { amount: 1, locked: 2, code_hash: vec![7u8; 32], storage_usage: 3 };
    let bytes = encode_account(&a);
    let mut expected = vec![0u8; 72];
    expected[0] = 1; // 16-byte little-endian amount
    expected[16] = 2; // 16-byte little-endian locked balance
    for i in 32..64 {
        expected[i] = 7; // 32-byte code hash
    }
    expected[64] = 3; // 8-byte little-endian storage usage
    assert_eq!(bytes, expected);
}

#[test]
fn account_decode_then_encode_reproduces_bytes() {
    let bytes = encode_account(&sample_account());
    let decoded = decode_account(&bytes).unwrap();
    assert_eq!(decoded.amount, sample_account().amount);
    assert_eq!(decoded.locked, sample_account().locked);
    assert_eq!(decoded.code_hash, vec![9u8; 32]);
    assert_eq!(decoded.storage_usage, 4_096);
    assert_eq!(encode_account(&decoded), bytes);
}

#[test]
fn account_decode_empty_is_not_found() {
    let empty: Vec<u8> = Vec::new();
    assert_eq!(decode_account(&empty), Err(DecodeError::NotFound));
}

#[test]
fn account_decode_garbage_is_deserialization_error() {
    let garbage = vec![1u8, 2, 3, 4, 5];
    assert_eq!(decode_account(&garbage), Err(DecodeError::DeserializationError));
    let too_long = vec![0u8; 73];
    assert_eq!(decode_account(&too_long), Err(DecodeError::DeserializationError));
}

#[test]
fn full_access_key_round_trip() {
    let k = AccessKey { nonce: 77, permission: AccessKeyPermission::FullAccess };
    let bytes = encode_access_key(&k);
    assert_eq!(bytes, vec![77, 0, 0, 0, 0, 0, 0, 0, 1]);
    let decoded = decode_access_key(&bytes).unwrap();
    assert_eq!(decoded.nonce, 77);
    assert!(matches!(decoded.permission, AccessKeyPermission::FullAccess));
    assert_eq!(encode_access_key(&decoded), bytes);
}

#[test]
fn function_call_key_round_trip() {
    let k = AccessKey {
        nonce: 513,
        permission: AccessKeyPermission::FunctionCall {
            allowance: Some(1_000_000),
            receiver_id: b"market.near".to_vec(),
            method_names: vec![b"get".to_vec(), b"list".to_vec()],
        },
    };
    let bytes = encode_access_key(&k);
    let decoded = decode_access_key(&bytes).unwrap();
    assert_eq!(decoded.nonce, 513);
    match &decoded.permission {
        AccessKeyPermission::FunctionCall { allowance, receiver_id, method_names } => {
            assert_eq!(*allowance, Some(1_000_000));
            assert_eq!(receiver_id, &b"market.near".to_vec());
            assert_eq!(method_names.len(), 2);
            assert_eq!(method_names[0], b"get".to_vec());
            assert_eq!(method_names[1], b"list".to_vec());
        },
        AccessKeyPermission::FullAccess => panic!("wrong permission"),
    }
    assert_eq!(encode_access_key(&decoded), bytes);
}

#[test]
fn function_call_key_without_allowance_round_trip() {
    let k = AccessKey {
        nonce: 0,
        permission: AccessKeyPermission::FunctionCall {
            allowance: None,
            receiver_id: b"a.b".to_vec(),
            method_names: Vec::new(),
        },
    };
    let bytes = encode_access_key(&k);
    // nonce, tag 0 (function call), no allowance, 3-byte receiver, no methods
    assert_eq!(
        bytes,
        vec![0, 0, 0, 0, 0, 0, 0, 0, 0, 0, 3, 0, 0, 0, b'a', b'.', b'b', 0, 0, 0, 0]
    );
    let decoded = decode_access_key(&bytes).unwrap();
    assert_eq!(encode_access_key(&decoded), bytes);
}

#[test]
fn access_key_decode_empty_is_not_found() {
    let empty: Vec<u8> = Vec::new();
    assert!(matches!(decode_access_key(&empty), Err(DecodeError::NotFound)));
}

#[test]
fn access_key_decode_garbage_is_deserialization_error() {
    // bad variant tag
    let bad_tag = vec![0u8, 0, 0, 0, 0, 0, 0, 0, 9];
    assert!(matches!(decode_access_key(&bad_tag), Err(DecodeError::DeserializationError)));
    // trailing byte after a full-access record
    let trailing = vec![0u8, 0, 0, 0, 0, 0, 0, 0, 1, 0];
    assert!(matches!(decode_access_key(&trailing), Err(DecodeError::DeserializationError)));
    // truncated in the middle of the nonce
    let short = vec![1u8, 2, 3];
    assert!(matches!(decode_access_key(&short), Err(DecodeError::DeserializationError)));
    // receiver length field points past the end
    let overrun = vec![0u8, 0, 0, 0, 0, 0, 0, 0, 0, 0, 255, 0, 0, 0];
    assert!(matches!(decode_access_key(&overrun), Err(DecodeError::DeserializationError)));
}

#[test]
fn contract_code_empty_is_not_found_and_bytes_pass_through() {
    let empty: Vec<u8> = Vec::new();
    assert!(matches!(decode_contract_code(&empty), Err(DecodeError::NotFound)));
    let wasm = vec![0u8, b'a', b's', b'm'];
    let code = decode_contract_code(&wasm).unwrap();
    assert_eq!(code.code, wasm);
    assert!(code.hash.is_none());
}
