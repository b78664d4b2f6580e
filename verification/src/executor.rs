use vstd::prelude::*;
use crate::cache::StateCache;
use crate::codec::{pow256, push_bytes, spec_encode_account, spec_encode_bytes, Account, ContractCode};
use crate::errors::{CacheReply, RunContractError};
use crate::ids::AccountId;
use crate::keys::Scope;

verus! {

/// The fixed gas ceiling of a view call.
pub const MAX_GAS_BURNT: u64 = 300_000_000_000_000;

/// The transient context assembled for one view call and discarded after
/// it. A view call has no distinct caller, so the account identity is used
/// uniformly as current, signer and predecessor. The epoch height is fixed
/// at zero and the random seed is empty: contracts that depend on either
/// are not faithfully replayed (a documented limitation).
pub struct ExecutionContext {
    pub current_account_id: AccountId,
    pub signer_account_id: AccountId,
    pub signer_public_key: Vec<u8>,
    pub predecessor_account_id: AccountId,
    pub input: Vec<u8>,
    pub block_height: u64,
    pub block_timestamp: u64,
    pub epoch_height: u64,
    pub account_balance: u128,
    pub account_locked_balance: u128,
    pub storage_usage: u64,
    pub attached_deposit: u128,
    pub prepaid_gas: u64,
    pub random_seed: Vec<u8>,
    pub max_gas_burnt: u64,
}

/// The context `build_execution_context` owes its callers: identity fields
/// all name the called account, the input is the length-prefixed serialized
/// arguments, heights and balances are passed through, nothing is attached
/// or prepaid, and the gas ceiling is the fixed constant.
pub open spec fn context_post(
    c: ExecutionContext,
    account_id: Seq<u8>,
    account: Account,
    args: Seq<u8>,
    height: u64,
    timestamp: u64,
) -> bool {
    &&& c.current_account_id@ == account_id
    &&& c.signer_account_id@ == account_id
    &&& c.predecessor_account_id@ == account_id
    &&& c.signer_public_key@ == Seq::<u8>::empty()
    &&& c.input@ == spec_encode_bytes(args)
    &&& c.block_height == height
    &&& c.block_timestamp == timestamp
    &&& c.epoch_height == 0
    &&& c.account_balance == account.amount
    &&& c.account_locked_balance == account.locked
    &&& c.storage_usage == account.storage_usage
    &&& c.attached_deposit == 0
    &&& c.prepaid_gas == 0
    &&& c.random_seed@ == Seq::<u8>::empty()
    &&& c.max_gas_burnt == MAX_GAS_BURNT
}

/// Builds the execution context for a view call of `account_id`.
pub fn build_execution_context(
    account_id: &AccountId,
    account: &Account,
    args: &Vec<u8>,
    height: u64,
    timestamp: u64,
) -> (r: ExecutionContext)
    requires
        args@.len() < pow256(4),
    ensures
        context_post(r, account_id@, *account, args@, height, timestamp),
{
    let mut input: Vec<u8> = Vec::new();
    push_bytes(&mut input, args);
    assert(input@ =~= spec_encode_bytes(args@));
    ExecutionContext {
        current_account_id: account_id.duplicate(),
        signer_account_id: account_id.duplicate(),
        signer_public_key: Vec::new(),
        predecessor_account_id: account_id.duplicate(),
        input,
        block_height: height,
        block_timestamp: timestamp,
        epoch_height: 0,
        account_balance: account.amount,
        account_locked_balance: account.locked,
        storage_usage: account.storage_usage,
        attached_deposit: 0,
        prepaid_gas: 0,
        random_seed: Vec::new(),
        max_gas_burnt: MAX_GAS_BURNT,
    }
}

/// The result of a view call: return bytes, logs, and the gas burnt.
pub struct Outcome {
    pub return_bytes: Vec<u8>,
    pub logs: Vec<Vec<u8>>,
    pub gas_burnt: u64,
}

/// What the external execution engine reports: a finished outcome, or an
/// abort with its reason.
pub enum EngineResult {
    Done(Outcome),
    Aborted(Vec<u8>),
}

/// A call ready for the engine: the code to run and the assembled context.
pub struct PreparedCall {
    pub code: ContractCode,
    pub context: ExecutionContext,
}

/// Assembles a view call of `account_id` at `height` against the modelled
/// cache: fetches and decodes the account, fetches the code, and builds the
/// context. Exactly when no code is recorded at the height, the call is
/// refused with `CodeNotFound` before any engine is involved.
pub fn prepare_view_call(
    cache: &StateCache,
    account_id: &AccountId,
    args: &Vec<u8>,
    height: u64,
    timestamp: u64,
) -> (r: Result<PreparedCall, RunContractError>)
    requires
        args@.len() < pow256(4),
    ensures
        ({
            let acct = cache.spec_fetch_versioned(Scope::Account, account_id@, None, height);
            let code = cache.spec_fetch_versioned(Scope::Code, account_id@, None, height);
            &&& (r == Result::<PreparedCall, RunContractError>::Err(RunContractError::NotFound)
                <==> acct.len() == 0)
            &&& (r == Result::<PreparedCall, RunContractError>::Err(
                RunContractError::DeserializationError,
            ) <==> (acct.len() != 0 && acct.len() != 72))
            &&& (r == Result::<PreparedCall, RunContractError>::Err(
                RunContractError::CodeNotFound,
            ) <==> (acct.len() == 72 && code.len() == 0))
            &&& (r is Ok <==> (acct.len() == 72 && code.len() > 0))
            &&& (r matches Ok(p) ==> {
                &&& p.code.code@ == code
                &&& p.code.hash is None
                &&& exists|a: Account|
                    a.wf() && acct == spec_encode_account(a) && #[trigger] context_post(
                        p.context,
                        account_id@,
                        a,
                        args@,
                        height,
                        timestamp,
                    )
            })
        }),
{
    let account = match crate::queries::fetch_account(cache, account_id, height) {
        Err(e) => {
            return match e {
                crate::errors::DecodeError::NotFound => Err(RunContractError::NotFound),
                crate::errors::DecodeError::DeserializationError => Err(
                    RunContractError::DeserializationError,
                ),
            };
        },
        Ok(a) => a,
    };
    let code = match crate::queries::fetch_code(cache, account_id, height) {
        Err(_) => {
            return Err(RunContractError::CodeNotFound);
        },
        Ok(c) => c,
    };
    let context = build_execution_context(account_id, &account, args, height, timestamp);
    let p = PreparedCall { code, context };
    proof {
        let acct = cache.spec_fetch_versioned(Scope::Account, account_id@, None, height);
        assert(account.wf() && acct == spec_encode_account(account));
        assert(context_post(p.context, account_id@, account, args@, height, timestamp));
        assert(exists|a: Account|
            a.wf() && acct == spec_encode_account(a) && #[trigger] context_post(
                p.context,
                account_id@,
                a,
                args@,
                height,
                timestamp,
            ));
    }
    Ok(p)
}

/// Assembles a view call from the two payload replies the surrounding
/// service read from the external cache: the account record and the code.
/// An outage on either read is reported as `CacheUnavailable`, never
/// mistaken for absence of data.
pub fn prepare_from_replies(
    account_id: &AccountId,
    account_reply: CacheReply,
    code_reply: CacheReply,
    args: &Vec<u8>,
    height: u64,
    timestamp: u64,
) -> (r: Result<PreparedCall, RunContractError>)
    requires
        args@.len() < pow256(4),
    ensures
        account_reply is Unavailable ==> r == Result::<PreparedCall, RunContractError>::Err(
            RunContractError::CacheUnavailable,
        ),
        account_reply matches CacheReply::Payload(acct) ==> {
            &&& (r == Result::<PreparedCall, RunContractError>::Err(RunContractError::NotFound)
                <==> acct@.len() == 0)
            &&& (r == Result::<PreparedCall, RunContractError>::Err(
                RunContractError::DeserializationError,
            ) <==> (acct@.len() != 0 && acct@.len() != 72))
            &&& (acct@.len() == 72 && code_reply is Unavailable ==> r == Result::<
                PreparedCall,
                RunContractError,
            >::Err(RunContractError::CacheUnavailable))
            &&& (code_reply matches CacheReply::Payload(code) ==> {
                &&& (r == Result::<PreparedCall, RunContractError>::Err(
                    RunContractError::CodeNotFound,
                ) <==> (acct@.len() == 72 && code@.len() == 0))
                &&& (r is Ok <==> (acct@.len() == 72 && code@.len() > 0))
                &&& (r matches Ok(p) ==> {
                    &&& p.code.code@ == code@
                    &&& p.code.hash is None
                    &&& exists|a: Account|
                        a.wf() && acct@ == spec_encode_account(a) && #[trigger] context_post(
                            p.context,
                            account_id@,
                            a,
                            args@,
                            height,
                            timestamp,
                        )
                })
            })
        },
{
    let account_bytes = match account_reply {
        CacheReply::Unavailable => {
            return Err(RunContractError::CacheUnavailable);
        },
        CacheReply::Payload(b) => b,
    };
    let account = match crate::codec::decode_account(&account_bytes) {
        Err(e) => {
            return match e {
                crate::errors::DecodeError::NotFound => Err(RunContractError::NotFound),
                crate::errors::DecodeError::DeserializationError => Err(
                    RunContractError::DeserializationError,
                ),
            };
        },
        Ok(a) => a,
    };
    let code_bytes = match code_reply {
        CacheReply::Unavailable => {
            return Err(RunContractError::CacheUnavailable);
        },
        CacheReply::Payload(b) => b,
    };
    let code = match crate::codec::decode_contract_code(&code_bytes) {
        Err(_) => {
            return Err(RunContractError::CodeNotFound);
        },
        Ok(c) => c,
    };
    let context = build_execution_context(account_id, &account, args, height, timestamp);
    let p = PreparedCall { code, context };
    proof {
        assert(account.wf() && account_bytes@ == spec_encode_account(account));
        assert(context_post(p.context, account_id@, account, args@, height, timestamp));
        assert(exists|a: Account|
            a.wf() && account_bytes@ == spec_encode_account(a) && #[trigger] context_post(
                p.context,
                account_id@,
                a,
                args@,
                height,
                timestamp,
            ));
    }
    Ok(p)
}

/// Maps what the engine reported: a successful outcome passes through, and an
/// abort keeps its reason.
pub fn finish_view_call(r: EngineResult) -> (res: Result<Outcome, RunContractError>)
    ensures
        r matches EngineResult::Done(o) ==> res == Result::<Outcome, RunContractError>::Ok(o),
        r matches EngineResult::Aborted(why) ==> res == Result::<Outcome, RunContractError>::Err(
            RunContractError::Aborted(why),
        ),
{
    match r {
        EngineResult::Done(o) => Ok(o),
        EngineResult::Aborted(why) => Err(RunContractError::Aborted(why)),
    }
}

/// The capability handed to the execution engine so it can read contract
/// storage during a view call: bound to one account and one height, so
/// every read reflects the requested point in time. View calls are
/// read-only; whatever writes the engine attempts are discarded with the
/// call and never reach the cache.
pub struct StorageAdapter {
    account: AccountId,
    height: u64,
}

impl StorageAdapter {
    /// The account the adapter is bound to.
    pub closed spec fn spec_account(&self) -> Seq<u8> {
        self.account@
    }

    /// The height the adapter is bound to.
    pub closed spec fn spec_height(&self) -> u64 {
        self.height
    }

    /// Binds an adapter to `(account, height)`.
    pub fn new(account: AccountId, height: u64) -> (r: StorageAdapter)
        ensures
            r.spec_account() == account@,
            r.spec_height() == height,
    {
        StorageAdapter { account, height }
    }

    /// Reads one storage slot as of the bound height: the value returned is
    /// the one recorded at the most recent snapshot at or before it, never
    /// a later one.
    pub fn storage_read(&self, cache: &StateCache, key: &Vec<u8>) -> (r: Vec<u8>)
        ensures
            r@ == cache.spec_fetch_versioned(
                Scope::ContractStorage,
                self.spec_account(),
                Some(key@),
                self.spec_height(),
            ),
    {
        cache.fetch_versioned(Scope::ContractStorage, &self.account, Some(key), self.height)
    }
}

} // verus!
