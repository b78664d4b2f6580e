use vstd::prelude::*;
use crate::bytes::push_all;
use crate::ids::{is_id_byte, valid_account_id, AccountId};

verus! {

/// The data category a cache key belongs to. Each scope partitions the key
/// space and has its own snapshot index and value namespace.
#[derive(Clone, Copy, PartialEq, Eq, Structural, Debug)]
pub enum Scope {
    Account,
    Code,
    AccessKey,
    ContractStorage,
}

/// The single byte that prefixes every key of a scope. The four tags are
/// pairwise distinct, so keys of different scopes never collide.
pub open spec fn scope_tag(s: Scope) -> u8 {
    match s {
        Scope::Account => 97,  // b'a'
        Scope::Code => 99,  // b'c'
        Scope::AccessKey => 107,  // b'k'
        Scope::ContractStorage => 100,  // b'd'
    }
}

/// The byte that separates key components; account identifiers never
/// contain it.
pub const KEY_SEPARATOR: u8 = 58;  // b':'

/// Layout of a snapshot-index key: `scope : account [: sub_key]`.
pub open spec fn spec_snapshot_key(scope: Scope, account: Seq<u8>, sub_key: Option<Seq<u8>>) -> Seq<
    u8,
> {
    let head = seq![scope_tag(scope), KEY_SEPARATOR] + account;
    match sub_key {
        None => head,
        Some(s) => head + seq![KEY_SEPARATOR] + s,
    }
}

/// Layout of a value-record key: `scope : account : content_hash [: sub_key]`.
pub open spec fn spec_value_key(
    scope: Scope,
    account: Seq<u8>,
    hash: Seq<u8>,
    sub_key: Option<Seq<u8>>,
) -> Seq<u8> {
    let head = seq![scope_tag(scope), KEY_SEPARATOR] + account + seq![KEY_SEPARATOR] + hash;
    match sub_key {
        None => head,
        Some(s) => head + seq![KEY_SEPARATOR] + s,
    }
}

/// Layout of a field-set key, which names the set of recorded sub-keys of an
/// account under a scope: `scope : account`.
pub open spec fn spec_field_set_key(scope: Scope, account: Seq<u8>) -> Seq<u8> {
    seq![scope_tag(scope), KEY_SEPARATOR] + account
}

/// The scope tag as a runtime byte.
pub fn scope_tag_byte(s: Scope) -> (r: u8)
    ensures
        r == scope_tag(s),
{
    match s {
        Scope::Account => 97,
        Scope::Code => 99,
        Scope::AccessKey => 107,
        Scope::ContractStorage => 100,
    }
}

/// Builds the snapshot-index key for `(scope, account, sub_key)`. The same
/// inputs always yield the same key, and the layout keeps keys of distinct
/// inputs distinct (`lemma_snapshot_key_injective`).
pub fn build_snapshot_key(scope: Scope, account: &AccountId, sub_key: Option<&Vec<u8>>) -> (r: Vec<
    u8,
>)
    ensures
        sub_key is None ==> r@ == spec_snapshot_key(scope, account@, None),
        sub_key matches Some(s) ==> r@ == spec_snapshot_key(scope, account@, Some(s@)),
{
    let mut out: Vec<u8> = Vec::new();
    out.push(scope_tag_byte(scope));
    out.push(KEY_SEPARATOR);
    push_all(&mut out, account.as_bytes());
    match sub_key {
        None => {
            assert(out@ =~= spec_snapshot_key(scope, account@, None));
        },
        Some(s) => {
            out.push(KEY_SEPARATOR);
            push_all(&mut out, s);
            assert(out@ =~= spec_snapshot_key(scope, account@, Some(s@)));
        },
    }
    out
}

/// Builds the value-record key for `(scope, account, hash, sub_key)`.
pub fn build_value_key(
    scope: Scope,
    account: &AccountId,
    hash: &Vec<u8>,
    sub_key: Option<&Vec<u8>>,
) -> (r: Vec<u8>)
    ensures
        sub_key is None ==> r@ == spec_value_key(scope, account@, hash@, None),
        sub_key matches Some(s) ==> r@ == spec_value_key(scope, account@, hash@, Some(s@)),
{
    let mut out: Vec<u8> = Vec::new();
    out.push(scope_tag_byte(scope));
    out.push(KEY_SEPARATOR);
    push_all(&mut out, account.as_bytes());
    out.push(KEY_SEPARATOR);
    push_all(&mut out, hash);
    match sub_key {
        None => {
            assert(out@ =~= spec_value_key(scope, account@, hash@, None));
        },
        Some(s) => {
            out.push(KEY_SEPARATOR);
            push_all(&mut out, s);
            assert(out@ =~= spec_value_key(scope, account@, hash@, Some(s@)));
        },
    }
    out
}

/// Builds the field-set key for `(scope, account)`.
pub fn build_field_set_key(scope: Scope, account: &AccountId) -> (r: Vec<u8>)
    ensures
        r@ == spec_field_set_key(scope, account@),
{
    let mut out: Vec<u8> = Vec::new();
    out.push(scope_tag_byte(scope));
    out.push(KEY_SEPARATOR);
    push_all(&mut out, account.as_bytes());
    assert(out@ =~= spec_field_set_key(scope, account@));
    out
}

/// Distinct `(scope, account, sub_key)` triples build distinct snapshot
/// keys: the scope tag fixes the scope, account identifiers never contain
/// the separator, and the separator marks where the sub-key begins.
pub proof fn lemma_snapshot_key_injective(
    s1: Scope,
    a1: Seq<u8>,
    k1: Option<Seq<u8>>,
    s2: Scope,
    a2: Seq<u8>,
    k2: Option<Seq<u8>>,
)
    requires
        valid_account_id(a1),
        valid_account_id(a2),
        spec_snapshot_key(s1, a1, k1) == spec_snapshot_key(s2, a2, k2),
    ensures
        s1 == s2,
        a1 == a2,
        k1 == k2,
{
    let key1 = spec_snapshot_key(s1, a1, k1);
    let key2 = spec_snapshot_key(s2, a2, k2);
    assert(key1[0] == scope_tag(s1) && key2[0] == scope_tag(s2));
    assert(s1 == s2);
    let r1 = rest_of(a1, k1);
    let r2 = rest_of(a2, k2);
    assert(key1 =~= seq![scope_tag(s1), KEY_SEPARATOR] + r1);
    assert(key2 =~= seq![scope_tag(s2), KEY_SEPARATOR] + r2);
    assert(r1 =~= key1.subrange(2, key1.len() as int));
    assert(r2 =~= key2.subrange(2, key2.len() as int));
    assert(r1 == r2);
    lemma_rest_injective(a1, k1, a2, k2);
}

/// The part of a snapshot key after the scope prefix.
pub open spec fn rest_of(account: Seq<u8>, sub_key: Option<Seq<u8>>) -> Seq<u8> {
    match sub_key {
        None => account,
        Some(s) => account + seq![KEY_SEPARATOR] + s,
    }
}

proof fn lemma_rest_injective(a1: Seq<u8>, k1: Option<Seq<u8>>, a2: Seq<u8>, k2: Option<Seq<u8>>)
    requires
        valid_account_id(a1),
        valid_account_id(a2),
        rest_of(a1, k1) == rest_of(a2, k2),
    ensures
        a1 == a2,
        k1 == k2,
{
    let r = rest_of(a1, k1);
    assert(forall|i: int| 0 <= i < a1.len() ==> is_id_byte(#[trigger] a1[i]) && a1[i] != 58);
    assert(forall|i: int| 0 <= i < a2.len() ==> is_id_byte(#[trigger] a2[i]) && a2[i] != 58);
    match (k1, k2) {
        (None, None) => {
        },
        (None, Some(s2)) => {
            assert(r =~= a2 + seq![KEY_SEPARATOR] + s2);
            assert(r[a2.len() as int] == 58);
            assert(a1[a2.len() as int] != 58);
        },
        (Some(s1), None) => {
            assert(r =~= a1 + seq![KEY_SEPARATOR] + s1);
            assert(r[a1.len() as int] == 58);
            assert(a2[a1.len() as int] != 58);
        },
        (Some(s1), Some(s2)) => {
            assert(r =~= a1 + seq![KEY_SEPARATOR] + s1);
            assert(r =~= a2 + seq![KEY_SEPARATOR] + s2);
            if a1.len() < a2.len() {
                assert(r[a1.len() as int] == 58);
                assert(r[a1.len() as int] == a2[a1.len() as int]);
                assert(false);
            }
            if a2.len() < a1.len() {
                assert(r[a2.len() as int] == 58);
                assert(r[a2.len() as int] == a1[a2.len() as int]);
                assert(false);
            }
            assert(a1 =~= r.subrange(0, a1.len() as int));
            assert(a2 =~= r.subrange(0, a2.len() as int));
            assert(s1 =~= r.subrange(a1.len() as int + 1, r.len() as int));
            assert(s2 =~= r.subrange(a2.len() as int + 1, r.len() as int));
        },
    }
}

} // verus!
