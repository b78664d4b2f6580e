use vstd::prelude::*;
use crate::cache::StateCache;
use crate::codec::{
    decode_access_key, decode_account, decode_contract_code, spec_encode_access_key,
    spec_encode_account, AccessKey, Account, ContractCode,
};
use crate::enumerate::{
    enumerate, entries_view, spec_account_fields, spec_entries, StateResult, MAX_LIMIT, PAGE_SIZE,
    SCAN_PAGE_CAP,
};
use crate::errors::{CacheReply, DecodeError, FetchError, QueryError};
use crate::ids::AccountId;
use crate::keys::Scope;

verus! {

/// Fetches and decodes the account entity of `account_id` as of `height`.
pub fn fetch_account(cache: &StateCache, account_id: &AccountId, height: u64) -> (r: Result<
    Account,
    DecodeError,
>)
    ensures
        ({
            let b = cache.spec_fetch_versioned(Scope::Account, account_id@, None, height);
            &&& (r == Result::<Account, DecodeError>::Err(DecodeError::NotFound) <==> b.len() == 0)
            &&& (r is Ok <==> b.len() == 72)
            &&& (r matches Ok(a) ==> a.wf() && b == spec_encode_account(a))
            &&& (r == Result::<Account, DecodeError>::Err(DecodeError::DeserializationError) <==> (
            b.len() != 0 && b.len() != 72))
        }),
{
    let b = cache.fetch_versioned(Scope::Account, account_id, None, height);
    decode_account(&b)
}

/// Fetches and decodes the access key of `account_id` under `key_data` as
/// of `height`.
pub fn fetch_access_key(
    cache: &StateCache,
    account_id: &AccountId,
    height: u64,
    key_data: &Vec<u8>,
) -> (r: Result<AccessKey, DecodeError>)
    ensures
        ({
            let b = cache.spec_fetch_versioned(
                Scope::AccessKey,
                account_id@,
                Some(key_data@),
                height,
            );
            &&& (r == Result::<AccessKey, DecodeError>::Err(DecodeError::NotFound) <==> b.len()
                == 0)
            &&& (r matches Ok(k) ==> k.wf() && b == spec_encode_access_key(k))
            &&& (b.len() != 0 && r is Err ==> r == Result::<AccessKey, DecodeError>::Err(
                DecodeError::DeserializationError,
            ))
            &&& ((exists|k: AccessKey| k.wf() && b == spec_encode_access_key(k)) ==> r is Ok)
        }),
{
    let b = cache.fetch_versioned(Scope::AccessKey, account_id, Some(key_data), height);
    decode_access_key(&b)
}

/// Fetches the contract code of `account_id` as of `height`; an empty
/// payload means no code is recorded there.
pub fn fetch_code(cache: &StateCache, account_id: &AccountId, height: u64) -> (r: Result<
    ContractCode,
    DecodeError,
>)
    ensures
        ({
            let b = cache.spec_fetch_versioned(Scope::Code, account_id@, None, height);
            &&& (r is Err <==> b.len() == 0)
            &&& (r is Err ==> r == Result::<ContractCode, DecodeError>::Err(DecodeError::NotFound))
            &&& (r matches Ok(c) ==> c.code@ == b && c.hash is None)
        }),
{
    let b = cache.fetch_versioned(Scope::Code, account_id, None, height);
    decode_contract_code(&b)
}

/// Decodes the account-record reply of one cache read: an outage is
/// reported as `CacheUnavailable`, never mistaken for absence of data.
pub fn decode_account_reply(reply: CacheReply) -> (r: Result<Account, QueryError>)
    ensures
        reply is Unavailable ==> r == Result::<Account, QueryError>::Err(
            QueryError::CacheUnavailable,
        ),
        reply matches CacheReply::Payload(b) ==> {
            &&& (r == Result::<Account, QueryError>::Err(QueryError::NotFound) <==> b@.len() == 0)
            &&& (r is Ok <==> b@.len() == 72)
            &&& (r matches Ok(a) ==> a.wf() && b@ == spec_encode_account(a))
            &&& (r == Result::<Account, QueryError>::Err(QueryError::DeserializationError) <==> (
            b@.len() != 0 && b@.len() != 72))
        },
{
    let bytes = match reply {
        CacheReply::Unavailable => {
            return Err(QueryError::CacheUnavailable);
        },
        CacheReply::Payload(b) => b,
    };
    match decode_account(&bytes) {
        Ok(a) => Ok(a),
        Err(DecodeError::NotFound) => Err(QueryError::NotFound),
        Err(DecodeError::DeserializationError) => Err(QueryError::DeserializationError),
    }
}

/// Decodes the access-key reply of one cache read: an outage is reported as
/// `CacheUnavailable`; a recorded canonical encoding always decodes.
pub fn decode_access_key_reply(reply: CacheReply) -> (r: Result<AccessKey, QueryError>)
    ensures
        reply is Unavailable ==> r == Result::<AccessKey, QueryError>::Err(
            QueryError::CacheUnavailable,
        ),
        reply matches CacheReply::Payload(b) ==> {
            &&& (r == Result::<AccessKey, QueryError>::Err(QueryError::NotFound) <==> b@.len()
                == 0)
            &&& (r matches Ok(k) ==> k.wf() && b@ == spec_encode_access_key(k))
            &&& (b@.len() != 0 && r is Err ==> r == Result::<AccessKey, QueryError>::Err(
                QueryError::DeserializationError,
            ))
            &&& ((exists|k: AccessKey| k.wf() && b@ == spec_encode_access_key(k)) ==> r is Ok)
        },
{
    let bytes = match reply {
        CacheReply::Unavailable => {
            return Err(QueryError::CacheUnavailable);
        },
        CacheReply::Payload(b) => b,
    };
    match decode_access_key(&bytes) {
        Ok(k) => Ok(k),
        Err(DecodeError::NotFound) => Err(QueryError::NotFound),
        Err(DecodeError::DeserializationError) => Err(QueryError::DeserializationError),
    }
}

/// Treats the code reply of one cache read as a contract module: an outage
/// is reported as `CacheUnavailable`, an empty payload as `NotFound`.
pub fn decode_code_reply(reply: CacheReply) -> (r: Result<ContractCode, QueryError>)
    ensures
        reply is Unavailable ==> r == Result::<ContractCode, QueryError>::Err(
            QueryError::CacheUnavailable,
        ),
        reply matches CacheReply::Payload(b) ==> {
            &&& (r is Err <==> b@.len() == 0)
            &&& (r is Err ==> r == Result::<ContractCode, QueryError>::Err(QueryError::NotFound))
            &&& (r matches Ok(c) ==> c.code@ == b@ && c.hash is None)
        },
{
    let bytes = match reply {
        CacheReply::Unavailable => {
            return Err(QueryError::CacheUnavailable);
        },
        CacheReply::Payload(b) => b,
    };
    match decode_contract_code(&bytes) {
        Ok(c) => Ok(c),
        Err(_) => Err(QueryError::NotFound),
    }
}

/// Prefixes of the field set enumerate to no more entries than the whole.
proof fn lemma_entries_prefix_len(
    cache: StateCache,
    account: Seq<u8>,
    h: u64,
    prefix: Seq<u8>,
    fields: Seq<Vec<u8>>,
    m: int,
)
    requires
        0 <= m <= fields.len(),
    ensures
        spec_entries(cache, account, h, prefix, fields.subrange(0, m)).len() <= spec_entries(
            cache,
            account,
            h,
            prefix,
            fields,
        ).len(),
    decreases fields.len(),
{
    if m == fields.len() {
        assert(fields.subrange(0, m) =~= fields);
    } else {
        let t = fields.drop_last();
        assert(fields.subrange(0, m) =~= t.subrange(0, m));
        lemma_entries_prefix_len(cache, account, h, prefix, t, m);
    }
}

/// Enumerates the contract-storage state of `account_id` as of `height`;
/// an enumeration that finds nothing at all is reported as `NotFound`, as a
/// point query for a missing key would be. (A scan that stops at the page
/// cap before finding anything is also reported so, which can only happen
/// when the field set outgrows every page the scan may take.)
pub fn fetch_state(cache: &StateCache, account_id: &AccountId, height: u64, prefix: &Vec<u8>) -> (r:
    Result<StateResult, FetchError>)
    ensures
        r is Err ==> r == Result::<StateResult, FetchError>::Err(FetchError::NotFound),
        r is Err ==> spec_entries(
            *cache,
            account_id@,
            height,
            prefix@,
            spec_account_fields(*cache, account_id@),
        ).len() == 0 || spec_account_fields(*cache, account_id@).len() > PAGE_SIZE * SCAN_PAGE_CAP,
        r is Err ==> exists|m: int|
            {
                &&& 0 <= m <= spec_account_fields(*cache, account_id@).len()
                &&& spec_entries(
                    *cache,
                    account_id@,
                    height,
                    prefix@,
                    #[trigger] spec_account_fields(*cache, account_id@).subrange(0, m),
                ).len() == 0
                &&& (m == spec_account_fields(*cache, account_id@).len() || m == PAGE_SIZE
                    * SCAN_PAGE_CAP)
            },
        spec_entries(
            *cache,
            account_id@,
            height,
            prefix@,
            spec_account_fields(*cache, account_id@),
        ).len() == 0 ==> r is Err,
        r matches Ok(sr) ==> {
            &&& sr.entries@.len() > 0
            &&& sr.entries@.len() <= MAX_LIMIT + PAGE_SIZE
            &&& (sr.complete ==> entries_view(sr.entries@) == spec_entries(
                *cache,
                account_id@,
                height,
                prefix@,
                spec_account_fields(*cache, account_id@),
            ))
            &&& (!sr.complete ==> sr.entries@.len() > MAX_LIMIT || spec_account_fields(
                *cache,
                account_id@,
            ).len() > PAGE_SIZE * SCAN_PAGE_CAP)
            &&& exists|m: int|
                0 <= m <= spec_account_fields(*cache, account_id@).len() && entries_view(
                    sr.entries@,
                ) == spec_entries(
                    *cache,
                    account_id@,
                    height,
                    prefix@,
                    #[trigger] spec_account_fields(*cache, account_id@).subrange(0, m),
                )
        },
{
    let sr = enumerate(cache, account_id, height, prefix);
    let ghost full = spec_entries(
        *cache,
        account_id@,
        height,
        prefix@,
        spec_account_fields(*cache, account_id@),
    );
    proof {
        let m = choose|m: int|
            {
                &&& 0 <= m <= spec_account_fields(*cache, account_id@).len()
                &&& entries_view(sr.entries@) == spec_entries(
                    *cache,
                    account_id@,
                    height,
                    prefix@,
                    #[trigger] spec_account_fields(*cache, account_id@).subrange(0, m),
                )
                &&& (sr.complete <==> m == spec_account_fields(*cache, account_id@).len())
                &&& (!sr.complete ==> sr.entries@.len() > MAX_LIMIT || m == PAGE_SIZE
                    * SCAN_PAGE_CAP)
            };
        lemma_entries_prefix_len(
            *cache,
            account_id@,
            height,
            prefix@,
            spec_account_fields(*cache, account_id@),
            m,
        );
    }
    if sr.entries.len() == 0 {
        Err(FetchError::NotFound)
    } else {
        Ok(sr)
    }
}

} // verus!
