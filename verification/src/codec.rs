use vstd::prelude::*;
use crate::bytes::{copy_bytes, push_all};
use crate::errors::DecodeError;

verus! {

/// 256 raised to `n`: the number of values of an `n`-byte field.
pub open spec fn pow256(n: nat) -> nat
    decreases n,
{
    if n == 0 {
        1
    } else {
        256 * pow256((n - 1) as nat)
    }
}

/// The unsigned value of a little-endian byte string.
pub open spec fn le_val(s: Seq<u8>) -> nat
    decreases s.len(),
{
    if s.len() == 0 {
        0
    } else {
        (s[0] as nat) + 256 * le_val(s.subrange(1, s.len() as int))
    }
}

/// The `n`-byte little-endian encoding of `x` (truncated to `n` bytes).
pub open spec fn le_bytes(x: nat, n: nat) -> Seq<u8>
    decreases n,
{
    if n == 0 {
        Seq::empty()
    } else {
        seq![(x % 256) as u8] + le_bytes(x / 256, (n - 1) as nat)
    }
}

pub proof fn lemma_le_bytes_len(x: nat, n: nat)
    ensures
        le_bytes(x, n).len() == n,
    decreases n,
{
    if n > 0 {
        lemma_le_bytes_len(x / 256, (n - 1) as nat);
    }
}

/// A byte string's value is below 256^length.
pub proof fn lemma_le_val_bound(s: Seq<u8>)
    ensures
        le_val(s) < pow256(s.len()),
    decreases s.len(),
{
    if s.len() > 0 {
        lemma_le_val_bound(s.subrange(1, s.len() as int));
    }
}

/// Decoding after encoding gives the value back, when it fits.
pub proof fn lemma_le_val_le_bytes(x: nat, n: nat)
    requires
        x < pow256(n),
    ensures
        le_val(le_bytes(x, n)) == x,
    decreases n,
{
    if n > 0 {
        let s = le_bytes(x, n);
        lemma_le_bytes_len(x / 256, (n - 1) as nat);
        assert(s.subrange(1, s.len() as int) =~= le_bytes(x / 256, (n - 1) as nat));
        assert(x / 256 < pow256((n - 1) as nat)) by {
            assert(x < 256 * pow256((n - 1) as nat));
        }
        lemma_le_val_le_bytes(x / 256, (n - 1) as nat);
    }
}

/// Encoding a decoded byte string of length `n` gives the bytes back: the
/// little-endian layout is canonical.
pub proof fn lemma_le_bytes_le_val(s: Seq<u8>)
    ensures
        le_bytes(le_val(s), s.len()) == s,
    decreases s.len(),
{
    if s.len() > 0 {
        let t = s.subrange(1, s.len() as int);
        lemma_le_bytes_le_val(t);
        let x = le_val(s);
        assert(x == s[0] + 256 * le_val(t));
        assert(x % 256 == s[0] && x / 256 == le_val(t)) by (nonlinear_arith)
            requires
                x == s[0] + 256 * le_val(t),
                0 <= s[0] < 256,
        ;
        assert(le_bytes(x, s.len()) =~= s);
    }
}

/// Reads the `n`-byte little-endian field of `b` at `off` into a `u128`.
/// `n` is at most 16, so the value fits.
pub fn read_le(b: &Vec<u8>, off: usize, n: usize) -> (r: u128)
    requires
        n <= 16,
        off + n <= b@.len(),
    ensures
        r as nat == le_val(b@.subrange(off as int, off + n)),
{
    proof {
        lemma_le_val_bound(b@.subrange(off as int, off + n));
        reveal_with_fuel(pow256, 17);
        assert(pow256(16) == 0x100000000000000000000000000000000);
        lemma_pow256_increases(n as nat, 16);
    }
    let total: usize = b.len();
    let mut i: usize = n;
    let mut acc: u128 = 0;
    assert(b@.subrange(off + n, off + n) =~= Seq::<u8>::empty());
    while i > 0
        invariant
            i <= n,
            n <= 16,
            off + n <= total,
            total == b@.len(),
            acc as nat == le_val(b@.subrange(off + i, off + n)),
        decreases i,
    {
        let ghost tail = b@.subrange(off + i, off + n);
        proof {
            lemma_le_val_bound(tail);
            lemma_pow256_increases((n - i) as nat, 15);
            reveal_with_fuel(pow256, 16);
            assert(pow256(15) == 0x1000000000000000000000000000000);
            assert(256 * (acc as nat) + 256 > 0);
        }
        let byte = b[off + i - 1];
        assert(b@.subrange(off + i - 1, off + n)[0] == b@[off + i - 1]);
        assert(b@.subrange(off + i - 1, off + n).subrange(
            1,
            b@.subrange(off + i - 1, off + n).len() as int,
        ) =~= tail);
        acc = acc * 256 + (byte as u128);
        i = i - 1;
    }
    assert(b@.subrange(off as int, off + n) =~= b@.subrange(off + 0, off + n));
    acc
}

/// 256^m divides 256^n when `m <= n`, and in particular does not exceed it.
pub proof fn lemma_pow256_increases(m: nat, n: nat)
    requires
        m <= n,
    ensures
        pow256(m) <= pow256(n),
    decreases n,
{
    if m < n {
        lemma_pow256_increases(m, (n - 1) as nat);
        assert(pow256((n - 1) as nat) <= 256 * pow256((n - 1) as nat));
    }
}

/// Appends the `n`-byte little-endian encoding of `x` to `out`.
pub fn push_le(out: &mut Vec<u8>, x: u128, n: usize)
    requires
        (x as nat) < pow256(n as nat),
    ensures
        final(out)@ == old(out)@ + le_bytes(x as nat, n as nat),
{
    let ghost base = out@;
    let mut cur: u128 = x;
    let mut k: usize = 0;
    while k < n
        invariant
            k <= n,
            out@.len() == base.len() + k,
            le_bytes(x as nat, n as nat) == out@.subrange(base.len() as int, out@.len() as int)
                + le_bytes(cur as nat, (n - k) as nat),
            out@.subrange(0, base.len() as int) == base,
        decreases n - k,
    {
        let ghost done = out@.subrange(base.len() as int, out@.len() as int);
        let byte: u8 = (cur % 256) as u8;
        out.push(byte);
        proof {
            assert(le_bytes(cur as nat, (n - k) as nat) == seq![((cur as nat) % 256) as u8]
                + le_bytes((cur as nat) / 256, (n - k - 1) as nat));
            assert(out@.subrange(base.len() as int, out@.len() as int) =~= done + seq![byte]);
            assert(done + seq![byte] + le_bytes((cur as nat) / 256, (n - k - 1) as nat) =~= done
                + (seq![byte] + le_bytes((cur as nat) / 256, (n - k - 1) as nat)));
            assert(out@.subrange(0, base.len() as int) =~= base);
        }
        cur = cur / 256;
        k = k + 1;
    }
    assert(le_bytes(cur as nat, 0) =~= Seq::<u8>::empty());
    assert(le_bytes(x as nat, n as nat) =~= out@.subrange(base.len() as int, out@.len() as int));
    assert(out@ =~= base + le_bytes(x as nat, n as nat));
}

/// A decoded account entity: balances, storage usage, and the hash of the
/// deployed code.
#[derive(Debug, PartialEq, Eq)]
pub struct Account {
    pub amount: u128,
    pub locked: u128,
    pub code_hash: Vec<u8>,
    pub storage_usage: u64,
}

impl Account {
    /// The code hash is exactly 32 bytes.
    pub open spec fn wf(&self) -> bool {
        self.code_hash@.len() == 32
    }
}

/// The canonical account layout: 16-byte balance, 16-byte locked balance,
/// 32-byte code hash, 8-byte storage usage; 72 bytes in all.
pub open spec fn spec_encode_account(a: Account) -> Seq<u8> {
    le_bytes(a.amount as nat, 16) + le_bytes(a.locked as nat, 16) + a.code_hash@ + le_bytes(
        a.storage_usage as nat,
        8,
    )
}

pub proof fn lemma_encode_account_len(a: Account)
    requires
        a.wf(),
    ensures
        spec_encode_account(a).len() == 72,
{
    lemma_le_bytes_len(a.amount as nat, 16);
    lemma_le_bytes_len(a.locked as nat, 16);
    lemma_le_bytes_len(a.storage_usage as nat, 8);
}

/// Encodes an account in the canonical layout.
pub fn encode_account(a: &Account) -> (r: Vec<u8>)
    requires
        a.wf(),
    ensures
        r@ == spec_encode_account(*a),
{
    proof {
        reveal_with_fuel(pow256, 17);
        assert(pow256(16) == 0x100000000000000000000000000000000);
        assert(pow256(8) == 0x10000000000000000);
    }
    let mut out: Vec<u8> = Vec::new();
    push_le(&mut out, a.amount, 16);
    push_le(&mut out, a.locked, 16);
    push_all(&mut out, &a.code_hash);
    push_le(&mut out, a.storage_usage as u128, 8);
    assert(out@ =~= spec_encode_account(*a));
    out
}

/// Decodes an account from the canonical layout. Empty input means nothing
/// was recorded; any non-empty input that is not exactly a 72-byte account
/// record is malformed. On success the input is exactly the canonical
/// encoding of the result, so re-encoding reproduces the bytes.
pub fn decode_account(b: &Vec<u8>) -> (r: Result<Account, DecodeError>)
    ensures
        r == Result::<Account, DecodeError>::Err(DecodeError::NotFound) <==> b@.len() == 0,
        r is Ok <==> b@.len() == 72,
        r matches Ok(a) ==> a.wf() && b@ == spec_encode_account(a),
        r == Result::<Account, DecodeError>::Err(DecodeError::DeserializationError) <==> (b@.len()
            != 0 && b@.len() != 72),
{
    if b.len() == 0 {
        return Err(DecodeError::NotFound);
    }
    if b.len() != 72 {
        return Err(DecodeError::DeserializationError);
    }
    proof {
        reveal_with_fuel(pow256, 17);
        assert(pow256(16) == 0x100000000000000000000000000000000);
        assert(pow256(8) == 0x10000000000000000);
        lemma_le_val_bound(b@.subrange(64, 72));
    }
    let amount = read_le(b, 0, 16);
    let locked = read_le(b, 16, 16);
    let mut code_hash: Vec<u8> = Vec::new();
    let mut i: usize = 32;
    while i < 64
        invariant
            32 <= i <= 64,
            b@.len() == 72,
            code_hash@ == b@.subrange(32, i as int),
        decreases 64 - i,
    {
        code_hash.push(b[i]);
        assert(code_hash@ =~= b@.subrange(32, i + 1));
        i = i + 1;
    }
    let storage_usage = read_le(b, 64, 8) as u64;
    let a = Account { amount, locked, code_hash, storage_usage };
    proof {
        lemma_le_bytes_le_val(b@.subrange(0, 16));
        lemma_le_bytes_le_val(b@.subrange(16, 32));
        lemma_le_bytes_le_val(b@.subrange(64, 72));
        assert(b@ =~= b@.subrange(0, 16) + b@.subrange(16, 32) + b@.subrange(32, 64) + b@.subrange(
            64,
            72,
        ));
    }
    Ok(a)
}

/// The canonical account encoding is injective: equal encodings decode to
/// equal accounts, so a byte record determines its entity and the
/// decode-encode round trip is unambiguous.
pub proof fn lemma_encode_account_injective(a1: Account, a2: Account)
    requires
        a1.wf(),
        a2.wf(),
        spec_encode_account(a1) == spec_encode_account(a2),
    ensures
        a1.amount == a2.amount,
        a1.locked == a2.locked,
        a1.code_hash@ == a2.code_hash@,
        a1.storage_usage == a2.storage_usage,
{
    reveal_with_fuel(pow256, 17);
    assert(pow256(16) == 0x100000000000000000000000000000000);
    assert(pow256(8) == 0x10000000000000000);
    let e = spec_encode_account(a1);
    lemma_encode_account_len(a1);
    lemma_encode_account_len(a2);
    lemma_le_bytes_len(a1.amount as nat, 16);
    lemma_le_bytes_len(a1.locked as nat, 16);
    lemma_le_bytes_len(a1.storage_usage as nat, 8);
    lemma_le_bytes_len(a2.amount as nat, 16);
    lemma_le_bytes_len(a2.locked as nat, 16);
    lemma_le_bytes_len(a2.storage_usage as nat, 8);
    assert(e.subrange(0, 16) =~= le_bytes(a1.amount as nat, 16));
    assert(e.subrange(0, 16) =~= le_bytes(a2.amount as nat, 16));
    assert(e.subrange(16, 32) =~= le_bytes(a1.locked as nat, 16));
    assert(e.subrange(16, 32) =~= le_bytes(a2.locked as nat, 16));
    assert(e.subrange(32, 64) =~= a1.code_hash@);
    assert(e.subrange(32, 64) =~= a2.code_hash@);
    assert(e.subrange(64, 72) =~= le_bytes(a1.storage_usage as nat, 8));
    assert(e.subrange(64, 72) =~= le_bytes(a2.storage_usage as nat, 8));
    lemma_le_val_le_bytes(a1.amount as nat, 16);
    lemma_le_val_le_bytes(a2.amount as nat, 16);
    lemma_le_val_le_bytes(a1.locked as nat, 16);
    lemma_le_val_le_bytes(a2.locked as nat, 16);
    lemma_le_val_le_bytes(a1.storage_usage as nat, 8);
    lemma_le_val_le_bytes(a2.storage_usage as nat, 8);
}

/// Raw contract code: opaque WebAssembly bytes, with an optional
/// precomputed identifier.
pub struct ContractCode {
    pub code: Vec<u8>,
    pub hash: Option<Vec<u8>>,
}

/// Treats a payload as a contract module: no decoding beyond rejecting an
/// empty payload, which means no code is recorded.
pub fn decode_contract_code(b: &Vec<u8>) -> (r: Result<ContractCode, DecodeError>)
    ensures
        r is Err <==> b@.len() == 0,
        r is Err ==> r == Result::<ContractCode, DecodeError>::Err(DecodeError::NotFound),
        r matches Ok(c) ==> c.code@ == b@ && c.hash is None,
{
    if b.len() == 0 {
        return Err(DecodeError::NotFound);
    }
    Ok(ContractCode { code: copy_bytes(b), hash: None })
}


/// The canonical layout of a length-prefixed byte string: a 4-byte
/// little-endian length, then the bytes.
pub open spec fn spec_encode_bytes(s: Seq<u8>) -> Seq<u8> {
    le_bytes(s.len(), 4) + s
}

/// The concatenation of the length-prefixed encodings of a list of byte
/// strings.
pub open spec fn spec_cat(v: Seq<Vec<u8>>) -> Seq<u8>
    decreases v.len(),
{
    if v.len() == 0 {
        Seq::empty()
    } else {
        spec_encode_bytes(v[0]@) + spec_cat(v.drop_first())
    }
}

pub proof fn lemma_cat_snoc(v: Seq<Vec<u8>>, x: Vec<u8>)
    ensures
        spec_cat(v.push(x)) == spec_cat(v) + spec_encode_bytes(x@),
    decreases v.len(),
{
    let w = v.push(x);
    if v.len() == 0 {
        assert(w.drop_first() =~= Seq::<Vec<u8>>::empty());
        assert(w[0] == x);
        assert(spec_cat(w) == spec_encode_bytes(w[0]@) + spec_cat(w.drop_first()));
        assert(spec_cat(w) =~= spec_cat(v) + spec_encode_bytes(x@));
    } else {
        assert(w.drop_first() =~= v.drop_first().push(x));
        lemma_cat_snoc(v.drop_first(), x);
        assert(spec_encode_bytes(w[0]@) + (spec_cat(v.drop_first()) + spec_encode_bytes(x@))
            =~= (spec_encode_bytes(v[0]@) + spec_cat(v.drop_first())) + spec_encode_bytes(x@));
    }
}

/// What an access key permits: everything, or calls into one receiver,
/// optionally under an allowance and restricted to named methods. The
/// receiver and the method names are kept as raw byte strings.
pub enum AccessKeyPermission {
    FunctionCall { allowance: Option<u128>, receiver_id: Vec<u8>, method_names: Vec<Vec<u8>> },
    FullAccess,
}

/// A decoded access key: its permission scope and its nonce.
pub struct AccessKey {
    pub nonce: u64,
    pub permission: AccessKeyPermission,
}

impl AccessKey {
    /// Every length-prefixed component fits its 4-byte length field.
    pub open spec fn wf(&self) -> bool {
        match self.permission {
            AccessKeyPermission::FullAccess => true,
            AccessKeyPermission::FunctionCall { allowance, receiver_id, method_names } => {
                &&& receiver_id@.len() < pow256(4)
                &&& method_names@.len() < pow256(4)
                &&& forall|i: int|
                    0 <= i < method_names@.len() ==> (#[trigger] method_names@[i])@.len() < pow256(
                        4,
                    )
            },
        }
    }
}

/// The canonical encoding of an optional allowance: a presence byte, then
/// the 16-byte amount when present.
pub open spec fn spec_encode_allowance(a: Option<u128>) -> Seq<u8> {
    match a {
        None => seq![0u8],
        Some(x) => seq![1u8] + le_bytes(x as nat, 16),
    }
}

/// The canonical encoding of a permission: a variant tag, then for a
/// function-call permission the allowance, the receiver, and the list of
/// method names.
pub open spec fn spec_encode_permission(p: AccessKeyPermission) -> Seq<u8> {
    match p {
        AccessKeyPermission::FunctionCall { allowance, receiver_id, method_names } => seq![0u8]
            + spec_encode_allowance(allowance) + spec_encode_bytes(receiver_id@) + le_bytes(
            method_names@.len(),
            4,
        ) + spec_cat(method_names@),
        AccessKeyPermission::FullAccess => seq![1u8],
    }
}

/// The canonical access-key layout: an 8-byte nonce, then the permission.
pub open spec fn spec_encode_access_key(k: AccessKey) -> Seq<u8> {
    le_bytes(k.nonce as nat, 8) + spec_encode_permission(k.permission)
}

/// Appends the length-prefixed encoding of `s` to `out`.
pub fn push_bytes(out: &mut Vec<u8>, s: &Vec<u8>)
    requires
        s@.len() < pow256(4),
    ensures
        final(out)@ == old(out)@ + spec_encode_bytes(s@),
{
    push_le(out, s.len() as u128, 4);
    push_all(out, s);
    assert(old(out)@ + le_bytes(s@.len(), 4) + s@ =~= old(out)@ + (le_bytes(s@.len(), 4) + s@));
}

/// Encodes an access key in the canonical layout.
pub fn encode_access_key(k: &AccessKey) -> (r: Vec<u8>)
    requires
        k.wf(),
    ensures
        r@ == spec_encode_access_key(*k),
{
    proof {
        reveal_with_fuel(pow256, 17);
        assert(pow256(8) == 0x10000000000000000);
        assert(pow256(16) == 0x100000000000000000000000000000000);
    }
    let mut out: Vec<u8> = Vec::new();
    push_le(&mut out, k.nonce as u128, 8);
    match &k.permission {
        AccessKeyPermission::FullAccess => {
            out.push(1);
            assert(out@ =~= spec_encode_access_key(*k));
        },
        AccessKeyPermission::FunctionCall { allowance, receiver_id, method_names } => {
            out.push(0);
            match allowance {
                None => {
                    out.push(0);
                },
                Some(x) => {
                    out.push(1);
                    push_le(&mut out, *x, 16);
                },
            }
            assert(out@ =~= le_bytes(k.nonce as nat, 8) + seq![0u8] + spec_encode_allowance(
                *allowance,
            ));
            push_bytes(&mut out, receiver_id);
            push_le(&mut out, method_names.len() as u128, 4);
            let ghost head = out@;
            let mut j: usize = 0;
            while j < method_names.len()
                invariant
                    j <= method_names@.len(),
                    forall|i: int|
                        0 <= i < method_names@.len() ==> (#[trigger] method_names@[i])@.len()
                            < pow256(4),
                    out@ == head + spec_cat(method_names@.subrange(0, j as int)),
                decreases method_names@.len() - j,
            {
                proof {
                    lemma_cat_snoc(method_names@.subrange(0, j as int), method_names@[j as int]);
                    assert(method_names@.subrange(0, j + 1) =~= method_names@.subrange(
                        0,
                        j as int,
                    ).push(method_names@[j as int]));
                }
                push_bytes(&mut out, &method_names[j]);
                assert(out@ =~= head + spec_cat(method_names@.subrange(0, j + 1)));
                j = j + 1;
            }
            assert(method_names@.subrange(0, method_names@.len() as int) =~= method_names@);
            assert(out@ =~= spec_encode_access_key(*k));
        },
    }
    out
}

/// Reads the length-prefixed byte string of `b` that starts at `pos`.
fn read_bytes(b: &Vec<u8>, pos: usize) -> (r: Result<(Vec<u8>, usize), DecodeError>)
    requires
        pos <= b@.len(),
    ensures
        r matches Ok(p) ==> {
            &&& pos + 4 <= p.1 <= b@.len()
            &&& p.1 == pos + 4 + p.0@.len()
            &&& p.0@.len() < pow256(4)
            &&& b@.subrange(pos as int, p.1 as int) == spec_encode_bytes(p.0@)
        },
        r is Err ==> r == Result::<(Vec<u8>, usize), DecodeError>::Err(
            DecodeError::DeserializationError,
        ),
        r is Err ==> pos + 4 > b@.len() || pos + 4 + le_val(b@.subrange(pos as int, pos + 4))
            > b@.len(),
{
    let total: usize = b.len();
    if total - pos < 4 {
        return Err(DecodeError::DeserializationError);
    }
    proof {
        lemma_le_val_bound(b@.subrange(pos as int, pos + 4));
        reveal_with_fuel(pow256, 5);
        assert(pow256(4) == 0x100000000);
    }
    let l = read_le(b, pos, 4) as usize;
    if total - (pos + 4) < l {
        return Err(DecodeError::DeserializationError);
    }
    let mut s: Vec<u8> = Vec::new();
    let mut i: usize = 0;
    while i < l
        invariant
            i <= l,
            pos + 4 + l <= total,
            total == b@.len(),
            s@ == b@.subrange(pos + 4, pos + 4 + i),
        decreases l - i,
    {
        s.push(b[pos + 4 + i]);
        assert(s@ =~= b@.subrange(pos + 4, pos + 4 + i + 1));
        i = i + 1;
    }
    let newpos = pos + 4 + l;
    proof {
        lemma_le_bytes_le_val(b@.subrange(pos as int, pos + 4));
        assert(b@.subrange(pos as int, newpos as int) =~= b@.subrange(pos as int, pos + 4)
            + b@.subrange(pos + 4, newpos as int));
        assert(b@.subrange(pos as int, newpos as int) =~= spec_encode_bytes(s@));
    }
    Ok((s, newpos))
}

/// Where the allowance field of a function-call permission ends in the
/// encoding: after the nonce, the permission tag and the allowance.
pub open spec fn spec_allowance_end(a: Option<u128>) -> int {
    match a {
        None => 10,
        Some(_) => 26,
    }
}

/// The layout of a canonical access-key encoding, field by field: where
/// each component of a well-formed key sits in its encoding.
proof fn lemma_access_key_encoding_shape(k: AccessKey)
    requires
        k.wf(),
    ensures
        ({
            let e = spec_encode_access_key(k);
            &&& e.len() >= 9
            &&& e.subrange(0, 8) == le_bytes(k.nonce as nat, 8)
            &&& (k.permission is FullAccess ==> e.len() == 9 && e[8] == 1)
            &&& (k.permission matches AccessKeyPermission::FunctionCall {
                allowance,
                receiver_id,
                method_names,
            } ==> {
                let apos = spec_allowance_end(allowance);
                let rlen = receiver_id@.len() as int;
                &&& e[8] == 0
                &&& e.len() >= 10
                &&& (allowance is None ==> e[9] == 0)
                &&& (allowance matches Some(x) ==> e[9] == 1 && e.len() >= 26 && e.subrange(
                    10,
                    26,
                ) == le_bytes(x as nat, 16))
                &&& e.len() >= apos + 8 + rlen
                &&& e.subrange(apos, apos + 4) == le_bytes(receiver_id@.len(), 4)
                &&& e.subrange(apos + 4, apos + 4 + rlen) == receiver_id@
                &&& e.subrange(apos + 4 + rlen, apos + 8 + rlen) == le_bytes(
                    method_names@.len(),
                    4,
                )
                &&& e.subrange(apos + 8 + rlen, e.len() as int) == spec_cat(method_names@)
            })
        }),
{
    let e = spec_encode_access_key(k);
    lemma_le_bytes_len(k.nonce as nat, 8);
    match k.permission {
        AccessKeyPermission::FullAccess => {
            assert(e.subrange(0, 8) =~= le_bytes(k.nonce as nat, 8));
            assert(e.len() == 9 && e[8] == 1);
        },
        AccessKeyPermission::FunctionCall { allowance, receiver_id, method_names } => {
            let apos = spec_allowance_end(allowance);
            let rlen = receiver_id@.len() as int;
            lemma_le_bytes_len(receiver_id@.len(), 4);
            lemma_le_bytes_len(method_names@.len(), 4);
            match allowance {
                None => {},
                Some(x) => {
                    lemma_le_bytes_len(x as nat, 16);
                },
            }
            assert(e.subrange(0, 8) =~= le_bytes(k.nonce as nat, 8));
            assert(e[8] == 0);
            match allowance {
                None => {
                    assert(e[9] == 0);
                },
                Some(x) => {
                    assert(e[9] == 1);
                    assert(e.subrange(10, 26) =~= le_bytes(x as nat, 16));
                },
            }
            assert(e.subrange(apos, apos + 4) =~= le_bytes(receiver_id@.len(), 4));
            assert(e.subrange(apos + 4, apos + 4 + rlen) =~= receiver_id@);
            assert(e.subrange(apos + 4 + rlen, apos + 8 + rlen) =~= le_bytes(
                method_names@.len(),
                4,
            ));
            assert(e.subrange(apos + 8 + rlen, e.len() as int) =~= spec_cat(method_names@));
        },
    }
}

/// A parsed prefix of a concatenation of length-prefixed strings leaves
/// exactly the concatenation of the remaining strings.
proof fn lemma_cat_prefix(v1: Seq<Vec<u8>>, v0: Seq<Vec<u8>>, rest: Seq<u8>)
    requires
        v1.len() <= v0.len(),
        forall|i: int| 0 <= i < v1.len() ==> (#[trigger] v1[i])@.len() < pow256(4),
        forall|i: int| 0 <= i < v0.len() ==> (#[trigger] v0[i])@.len() < pow256(4),
        spec_cat(v1) + rest == spec_cat(v0),
    ensures
        rest == spec_cat(v0.skip(v1.len() as int)),
    decreases v1.len(),
{
    if v1.len() == 0 {
        assert(spec_cat(v1) + rest =~= rest);
        assert(v0.skip(0) =~= v0);
    } else {
        let t1 = v1.drop_first();
        let t0 = v0.drop_first();
        assert(spec_cat(v1) == spec_encode_bytes(v1[0]@) + spec_cat(t1));
        assert(spec_cat(v0) == spec_encode_bytes(v0[0]@) + spec_cat(t0));
        assert(spec_encode_bytes(v1[0]@) + (spec_cat(t1) + rest) =~= (spec_encode_bytes(v1[0]@)
            + spec_cat(t1)) + rest);
        lemma_encode_bytes_prefix(v1[0]@, v0[0]@, spec_cat(t1) + rest, spec_cat(t0));
        assert(forall|i: int| 0 <= i < t1.len() ==> (#[trigger] t1[i]) == v1[i + 1]);
        assert(forall|i: int| 0 <= i < t0.len() ==> (#[trigger] t0[i]) == v0[i + 1]);
        lemma_cat_prefix(t1, t0, rest);
        assert(t0.skip(t1.len() as int) =~= v0.skip(v1.len() as int));
    }
}

/// Reading a length-prefixed byte string is unambiguous: equal streams
/// that both start with one decompose identically.
proof fn lemma_encode_bytes_prefix(x: Seq<u8>, y: Seq<u8>, r1: Seq<u8>, r2: Seq<u8>)
    requires
        x.len() < pow256(4),
        y.len() < pow256(4),
        spec_encode_bytes(x) + r1 == spec_encode_bytes(y) + r2,
    ensures
        x == y,
        r1 == r2,
{
    let s = spec_encode_bytes(x) + r1;
    lemma_le_bytes_len(x.len(), 4);
    lemma_le_bytes_len(y.len(), 4);
    assert(s.subrange(0, 4) =~= le_bytes(x.len(), 4));
    assert(s.subrange(0, 4) =~= le_bytes(y.len(), 4));
    lemma_le_val_le_bytes(x.len(), 4);
    lemma_le_val_le_bytes(y.len(), 4);
    assert(x.len() == y.len());
    assert(x =~= s.subrange(4, 4 + x.len() as int));
    assert(y =~= s.subrange(4, 4 + y.len() as int));
    assert(r1 =~= s.subrange(4 + x.len() as int, s.len() as int));
    assert(r2 =~= s.subrange(4 + y.len() as int, s.len() as int));
}

/// Concatenations of equally many length-prefixed strings are unambiguous.
proof fn lemma_cat_injective(v1: Seq<Vec<u8>>, v2: Seq<Vec<u8>>)
    requires
        v1.len() == v2.len(),
        forall|i: int| 0 <= i < v1.len() ==> (#[trigger] v1[i])@.len() < pow256(4),
        forall|i: int| 0 <= i < v2.len() ==> (#[trigger] v2[i])@.len() < pow256(4),
        spec_cat(v1) == spec_cat(v2),
    ensures
        forall|i: int| 0 <= i < v1.len() ==> (#[trigger] v1[i])@ == (#[trigger] v2[i])@,
    decreases v1.len(),
{
    if v1.len() > 0 {
        let t1 = v1.drop_first();
        let t2 = v2.drop_first();
        lemma_encode_bytes_prefix(v1[0]@, v2[0]@, spec_cat(t1), spec_cat(t2));
        assert(forall|i: int| 0 <= i < t1.len() ==> (#[trigger] t1[i]) == v1[i + 1]);
        assert(forall|i: int| 0 <= i < t2.len() ==> (#[trigger] t2[i]) == v2[i + 1]);
        lemma_cat_injective(t1, t2);
        assert forall|i: int| 0 <= i < v1.len() implies (#[trigger] v1[i])@ == (
        #[trigger] v2[i])@ by {
            if i > 0 {
                assert(t1[i - 1]@ == t2[i - 1]@);
            }
        }
    }
}

/// Two access keys whose observable content agrees: same nonce, and the
/// same permission down to the bytes of each component.
pub open spec fn access_keys_agree(k1: AccessKey, k2: AccessKey) -> bool {
    &&& k1.nonce == k2.nonce
    &&& match (k1.permission, k2.permission) {
        (AccessKeyPermission::FullAccess, AccessKeyPermission::FullAccess) => true,
        (
            AccessKeyPermission::FunctionCall {
                allowance: al1,
                receiver_id: r1,
                method_names: m1,
            },
            AccessKeyPermission::FunctionCall {
                allowance: al2,
                receiver_id: r2,
                method_names: m2,
            },
        ) => al1 == al2 && r1@ == r2@ && m1@.len() == m2@.len() && (forall|i: int|
            0 <= i < m1@.len() ==> (#[trigger] m1@[i])@ == (#[trigger] m2@[i])@),
        _ => false,
    }
}

/// The canonical access-key encoding is injective: equal encodings decode
/// to keys with the same observable content, so a byte record determines
/// its entity and the decode-encode round trip is unambiguous.
#[verifier::rlimit(80)]
pub proof fn lemma_encode_access_key_injective(k1: AccessKey, k2: AccessKey)
    requires
        k1.wf(),
        k2.wf(),
        spec_encode_access_key(k1) == spec_encode_access_key(k2),
    ensures
        access_keys_agree(k1, k2),
{
    reveal_with_fuel(pow256, 17);
    assert(pow256(8) == 0x10000000000000000);
    assert(pow256(16) == 0x100000000000000000000000000000000);
    assert(pow256(4) == 0x100000000);
    let e = spec_encode_access_key(k1);
    lemma_le_bytes_len(k1.nonce as nat, 8);
    lemma_le_bytes_len(k2.nonce as nat, 8);
    assert(e.subrange(0, 8) =~= le_bytes(k1.nonce as nat, 8));
    assert(e.subrange(0, 8) =~= le_bytes(k2.nonce as nat, 8));
    lemma_le_val_le_bytes(k1.nonce as nat, 8);
    lemma_le_val_le_bytes(k2.nonce as nat, 8);
    let p1 = spec_encode_permission(k1.permission);
    let p2 = spec_encode_permission(k2.permission);
    assert(p1 =~= e.subrange(8, e.len() as int));
    assert(p2 =~= e.subrange(8, e.len() as int));
    match (k1.permission, k2.permission) {
        (AccessKeyPermission::FullAccess, AccessKeyPermission::FullAccess) => {},
        (AccessKeyPermission::FullAccess, AccessKeyPermission::FunctionCall { .. }) => {
            assert(p1[0] == 1 && p2[0] == 0);
        },
        (AccessKeyPermission::FunctionCall { .. }, AccessKeyPermission::FullAccess) => {
            assert(p1[0] == 0 && p2[0] == 1);
        },
        (
            AccessKeyPermission::FunctionCall {
                allowance: al1,
                receiver_id: r1,
                method_names: m1,
            },
            AccessKeyPermission::FunctionCall {
                allowance: al2,
                receiver_id: r2,
                method_names: m2,
            },
        ) => {
            let q1 = spec_encode_allowance(al1) + spec_encode_bytes(r1@) + le_bytes(
                m1@.len(),
                4,
            ) + spec_cat(m1@);
            let q2 = spec_encode_allowance(al2) + spec_encode_bytes(r2@) + le_bytes(
                m2@.len(),
                4,
            ) + spec_cat(m2@);
            assert(q1 =~= p1.subrange(1, p1.len() as int));
            assert(q2 =~= p2.subrange(1, p2.len() as int));
            let w1: Seq<u8>;
            let w2: Seq<u8>;
            match (al1, al2) {
                (None, None) => {
                    w1 = q1.subrange(1, q1.len() as int);
                    w2 = q2.subrange(1, q2.len() as int);
                },
                (None, Some(_)) => {
                    assert(q1[0] == 0 && q2[0] == 1);
                    w1 = q1;
                    w2 = q2;
                },
                (Some(_), None) => {
                    assert(q1[0] == 1 && q2[0] == 0);
                    w1 = q1;
                    w2 = q2;
                },
                (Some(x1), Some(x2)) => {
                    assert(q1[0] == 1 && q2[0] == 1);
                    lemma_le_bytes_len(x1 as nat, 16);
                    lemma_le_bytes_len(x2 as nat, 16);
                    assert(q1.subrange(1, 17) =~= le_bytes(x1 as nat, 16));
                    assert(q2.subrange(1, 17) =~= le_bytes(x2 as nat, 16));
                    lemma_le_val_le_bytes(x1 as nat, 16);
                    lemma_le_val_le_bytes(x2 as nat, 16);
                    assert(x1 == x2);
                    w1 = q1.subrange(17, q1.len() as int);
                    w2 = q2.subrange(17, q2.len() as int);
                },
            }
            assert(w1 =~= spec_encode_bytes(r1@) + (le_bytes(m1@.len(), 4) + spec_cat(m1@)));
            assert(w2 =~= spec_encode_bytes(r2@) + (le_bytes(m2@.len(), 4) + spec_cat(m2@)));
            lemma_encode_bytes_prefix(
                r1@,
                r2@,
                le_bytes(m1@.len(), 4) + spec_cat(m1@),
                le_bytes(m2@.len(), 4) + spec_cat(m2@),
            );
            let tail = le_bytes(m1@.len(), 4) + spec_cat(m1@);
            lemma_le_bytes_len(m1@.len(), 4);
            lemma_le_bytes_len(m2@.len(), 4);
            assert(tail.subrange(0, 4) =~= le_bytes(m1@.len(), 4));
            assert(tail.subrange(0, 4) =~= le_bytes(m2@.len(), 4));
            lemma_le_val_le_bytes(m1@.len(), 4);
            lemma_le_val_le_bytes(m2@.len(), 4);
            assert(m1@.len() == m2@.len());
            assert(spec_cat(m1@) =~= tail.subrange(4, tail.len() as int));
            assert(spec_cat(m2@) =~= tail.subrange(4, tail.len() as int));
            lemma_cat_injective(m1@, m2@);
        },
    }
}

/// In the method-name region of a partial parse that matches the layout so
/// far, a read failure or leftover bytes rule out every canonical encoding:
/// an encoding would put the next length-prefixed name, or the end of the
/// input, exactly where the parse stopped.
#[verifier::rlimit(80)]
proof fn lemma_decode_tail_matches(
    b: Seq<u8>,
    apos: int,
    rend: int,
    p: int,
    rlen: int,
    cnt: nat,
    parsed: Seq<Vec<u8>>,
)
    requires
        b.len() >= 10,
        b[8] == 0,
        (b[9] == 0 && apos == 10) || (b[9] == 1 && apos == 26),
        0 <= rlen,
        (rlen as nat) < pow256(4),
        rend == apos + 4 + rlen,
        rend + 4 <= p <= b.len(),
        b.subrange(apos, apos + 4) == le_bytes(rlen as nat, 4),
        cnt == le_val(b.subrange(rend, rend + 4)),
        cnt < pow256(4),
        parsed.len() <= cnt,
        b.subrange(rend + 4, p) == spec_cat(parsed),
        forall|i: int| 0 <= i < parsed.len() ==> (#[trigger] parsed[i])@.len() < pow256(4),
        if parsed.len() < cnt {
            p + 4 > b.len() || p + 4 + le_val(b.subrange(p, p + 4)) > b.len()
        } else {
            p < b.len()
        },
    ensures
        forall|k0: AccessKey| !(k0.wf() && b == spec_encode_access_key(k0)),
{
    assert forall|k0: AccessKey| !(k0.wf() && b == spec_encode_access_key(k0)) by {
        if k0.wf() && b == spec_encode_access_key(k0) {
            lemma_access_key_encoding_shape(k0);
            match k0.permission {
                AccessKeyPermission::FullAccess => {
                    assert(b[8] == 1);
                    assert(false);
                },
                AccessKeyPermission::FunctionCall {
                    allowance: al0,
                    receiver_id: recv0,
                    method_names: names0,
                } => {
                    match al0 {
                        None => {
                            assert(b[9] == 0 && spec_allowance_end(al0) == 10);
                        },
                        Some(_) => {
                            assert(b[9] == 1 && spec_allowance_end(al0) == 26);
                        },
                    }
                    assert(apos == spec_allowance_end(al0));
                    lemma_le_val_le_bytes(recv0@.len(), 4);
                    lemma_le_val_le_bytes(rlen as nat, 4);
                    assert(recv0@.len() == rlen as nat);
                    assert(b.subrange(rend, rend + 4) == le_bytes(names0@.len(), 4));
                    lemma_le_val_le_bytes(names0@.len(), 4);
                    assert(cnt == names0@.len());
                    assert(b.subrange(rend + 4, b.len() as int) == spec_cat(names0@));
                    assert(b.subrange(rend + 4, b.len() as int) =~= b.subrange(rend + 4, p)
                        + b.subrange(p, b.len() as int));
                    lemma_cat_prefix(parsed, names0@, b.subrange(p, b.len() as int));
                    let remaining = names0@.skip(parsed.len() as int);
                    assert(b.subrange(p, b.len() as int) == spec_cat(remaining));
                    if parsed.len() < cnt {
                        let w = remaining[0];
                        assert(w == names0@[parsed.len() as int]);
                        assert(w@.len() < pow256(4));
                        assert(spec_cat(remaining) == spec_encode_bytes(w@) + spec_cat(
                            remaining.drop_first(),
                        ));
                        lemma_le_bytes_len(w@.len(), 4);
                        assert(b.len() - p >= 4 + w@.len());
                        assert(b.subrange(p, p + 4) =~= b.subrange(p, b.len() as int).subrange(
                            0,
                            4,
                        ));
                        assert(b.subrange(p, b.len() as int).subrange(0, 4) =~= le_bytes(
                            w@.len(),
                            4,
                        ));
                        lemma_le_val_le_bytes(w@.len(), 4);
                        assert(le_val(b.subrange(p, p + 4)) == w@.len());
                        assert(false);
                    } else {
                        assert(remaining =~= Seq::<Vec<u8>>::empty());
                        assert(b.subrange(p, b.len() as int).len() == 0);
                        assert(false);
                    }
                },
            }
        }
    }
}

/// What `decode_access_key` owes its callers: `NotFound` exactly on empty
/// input, a decoded key only for its exact canonical encoding, and
/// `DeserializationError` for every other failure.
pub open spec fn access_key_decode_post(b: Seq<u8>, r: Result<AccessKey, DecodeError>) -> bool {
    &&& (r == Result::<AccessKey, DecodeError>::Err(DecodeError::NotFound) <==> b.len() == 0)
    &&& (r matches Ok(k) ==> k.wf() && b == spec_encode_access_key(k))
    &&& (b.len() != 0 && r is Err ==> r == Result::<AccessKey, DecodeError>::Err(
        DecodeError::DeserializationError,
    ))
    &&& ((exists|k: AccessKey| k.wf() && b == spec_encode_access_key(k)) ==> r is Ok)
}

/// Garbage never decodes: any non-empty input that is not the canonical
/// encoding of some well-formed access key is answered with
/// `DeserializationError` — never a default value, and, the decoder being
/// total, never a panic.
pub proof fn lemma_access_key_garbage(b: Seq<u8>, r: Result<AccessKey, DecodeError>)
    requires
        access_key_decode_post(b, r),
        b.len() != 0,
        forall|k: AccessKey| !(k.wf() && b == spec_encode_access_key(k)),
    ensures
        r == Result::<AccessKey, DecodeError>::Err(DecodeError::DeserializationError),
{
    match r {
        Ok(k) => {
            assert(!(k.wf() && b == spec_encode_access_key(k)));
        },
        Err(_) => {},
    }
}

/// Decodes an access key from the canonical layout. Empty input means
/// nothing was recorded; any other input that is not exactly a canonical
/// access-key record is malformed. On success the input is exactly the
/// canonical encoding of the result, so re-encoding reproduces the bytes.
#[verifier::rlimit(80)]
pub fn decode_access_key(b: &Vec<u8>) -> (r: Result<AccessKey, DecodeError>)
    ensures
        access_key_decode_post(b@, r),
        r == Result::<AccessKey, DecodeError>::Err(DecodeError::NotFound) <==> b@.len() == 0,
        r matches Ok(k) ==> k.wf() && b@ == spec_encode_access_key(k),
        b@.len() != 0 && r is Err ==> r == Result::<AccessKey, DecodeError>::Err(
            DecodeError::DeserializationError,
        ),
        (exists|k: AccessKey| k.wf() && b@ == spec_encode_access_key(k)) ==> r is Ok,
{
    let total: usize = b.len();
    if total == 0 {
        proof {
            assert forall|k0: AccessKey| !(k0.wf() && b@ == spec_encode_access_key(k0)) by {
                if k0.wf() && b@ == spec_encode_access_key(k0) {
                    lemma_access_key_encoding_shape(k0);
                    assert(false);
                }
            }
        }
        return Err(DecodeError::NotFound);
    }
    if total < 9 {
        proof {
            assert forall|k0: AccessKey| !(k0.wf() && b@ == spec_encode_access_key(k0)) by {
                if k0.wf() && b@ == spec_encode_access_key(k0) {
                    lemma_access_key_encoding_shape(k0);
                    assert(false);
                }
            }
        }
        return Err(DecodeError::DeserializationError);
    }
    proof {
        lemma_le_val_bound(b@.subrange(0, 8));
        reveal_with_fuel(pow256, 17);
        assert(pow256(8) == 0x10000000000000000);
        assert(pow256(16) == 0x100000000000000000000000000000000);
        assert(pow256(4) == 0x100000000);
    }
    let nonce = read_le(b, 0, 8) as u64;
    proof {
        lemma_le_bytes_le_val(b@.subrange(0, 8));
    }
    let tag = b[8];
    if tag == 1 {
        if total != 9 {
            proof {
                assert forall|k0: AccessKey| !(k0.wf() && b@ == spec_encode_access_key(k0)) by {
                    if k0.wf() && b@ == spec_encode_access_key(k0) {
                        lemma_access_key_encoding_shape(k0);
                        match k0.permission {
                            AccessKeyPermission::FullAccess => {
                                assert(b@.len() == 9);
                                assert(false);
                            },
                            AccessKeyPermission::FunctionCall { .. } => {
                                assert(b@[8] == 0);
                                assert(false);
                            },
                        }
                    }
                }
            }
            return Err(DecodeError::DeserializationError);
        }
        let k = AccessKey { nonce, permission: AccessKeyPermission::FullAccess };
        assert(b@ =~= le_bytes(nonce as nat, 8) + seq![1u8]);
        return Ok(k);
    }
    if tag != 0 {
        proof {
            assert forall|k0: AccessKey| !(k0.wf() && b@ == spec_encode_access_key(k0)) by {
                if k0.wf() && b@ == spec_encode_access_key(k0) {
                    lemma_access_key_encoding_shape(k0);
                    match k0.permission {
                        AccessKeyPermission::FullAccess => {
                            assert(b@[8] == 1);
                            assert(false);
                        },
                        AccessKeyPermission::FunctionCall { .. } => {
                            assert(b@[8] == 0);
                            assert(false);
                        },
                    }
                }
            }
        }
        return Err(DecodeError::DeserializationError);
    }
    if total < 10 {
        proof {
            assert forall|k0: AccessKey| !(k0.wf() && b@ == spec_encode_access_key(k0)) by {
                if k0.wf() && b@ == spec_encode_access_key(k0) {
                    lemma_access_key_encoding_shape(k0);
                    match k0.permission {
                        AccessKeyPermission::FullAccess => {
                            assert(b@[8] == 1);
                            assert(false);
                        },
                        AccessKeyPermission::FunctionCall { .. } => {
                            assert(b@.len() >= 10);
                            assert(false);
                        },
                    }
                }
            }
        }
        return Err(DecodeError::DeserializationError);
    }
    let atag = b[9];
    let mut allowance: Option<u128> = None;
    let apos: usize;
    if atag == 0 {
        allowance = None;
        apos = 10;
        assert(b@.subrange(9, 10) =~= spec_encode_allowance(None));
    } else if atag == 1 {
        if total < 26 {
            proof {
                assert forall|k0: AccessKey| !(k0.wf() && b@ == spec_encode_access_key(k0)) by {
                    if k0.wf() && b@ == spec_encode_access_key(k0) {
                        lemma_access_key_encoding_shape(k0);
                        match k0.permission {
                            AccessKeyPermission::FullAccess => {
                                assert(b@[8] == 1);
                                assert(false);
                            },
                            AccessKeyPermission::FunctionCall { allowance: al0, .. } => {
                                match al0 {
                                    None => {
                                        assert(b@[9] == 0);
                                        assert(false);
                                    },
                                    Some(_) => {
                                        assert(b@.len() >= 26);
                                        assert(false);
                                    },
                                }
                            },
                        }
                    }
                }
            }
            return Err(DecodeError::DeserializationError);
        }
        let x = read_le(b, 10, 16);
        proof {
            lemma_le_bytes_le_val(b@.subrange(10, 26));
        }
        allowance = Some(x);
        apos = 26;
        assert(b@.subrange(9, 26) =~= seq![1u8] + le_bytes(x as nat, 16));
    } else {
        proof {
            assert forall|k0: AccessKey| !(k0.wf() && b@ == spec_encode_access_key(k0)) by {
                if k0.wf() && b@ == spec_encode_access_key(k0) {
                    lemma_access_key_encoding_shape(k0);
                    match k0.permission {
                        AccessKeyPermission::FullAccess => {
                            assert(b@[8] == 1);
                            assert(false);
                        },
                        AccessKeyPermission::FunctionCall { allowance: al0, .. } => {
                            match al0 {
                                None => {
                                    assert(b@[9] == 0);
                                    assert(false);
                                },
                                Some(_) => {
                                    assert(b@[9] == 1);
                                    assert(false);
                                },
                            }
                        },
                    }
                }
            }
        }
        return Err(DecodeError::DeserializationError);
    }
    let receiver_id: Vec<u8>;
    let rend: usize;
    match read_bytes(b, apos) {
        Err(_) => {
            proof {
                assert forall|k0: AccessKey| !(k0.wf() && b@ == spec_encode_access_key(k0)) by {
                    if k0.wf() && b@ == spec_encode_access_key(k0) {
                        lemma_access_key_encoding_shape(k0);
                        match k0.permission {
                            AccessKeyPermission::FullAccess => {
                                assert(b@[8] == 1);
                                assert(false);
                            },
                            AccessKeyPermission::FunctionCall {
                                allowance: al0,
                                receiver_id: recv0,
                                ..
                            } => {
                                match al0 {
                                    None => {
                                        assert(b@[9] == 0 && spec_allowance_end(al0) == 10);
                                    },
                                    Some(_) => {
                                        assert(b@[9] == 1 && spec_allowance_end(al0) == 26);
                                    },
                                }
                                assert(apos == spec_allowance_end(al0));
                                lemma_le_val_le_bytes(recv0@.len(), 4);
                                assert(le_val(b@.subrange(apos as int, apos + 4))
                                    == recv0@.len());
                                assert(b@.len() >= apos + 8 + recv0@.len());
                                assert(false);
                            },
                        }
                    }
                }
            }
            return Err(DecodeError::DeserializationError);
        },
        Ok(p) => {
            receiver_id = p.0;
            rend = p.1;
        },
    }
    proof {
        lemma_le_bytes_len(receiver_id@.len(), 4);
        assert(b@.subrange(apos as int, apos + 4) =~= b@.subrange(apos as int, rend as int)
            .subrange(0, 4));
        assert(b@.subrange(apos as int, rend as int).subrange(0, 4) =~= le_bytes(
            receiver_id@.len(),
            4,
        ));
    }
    if total - rend < 4 {
        proof {
            assert forall|k0: AccessKey| !(k0.wf() && b@ == spec_encode_access_key(k0)) by {
                if k0.wf() && b@ == spec_encode_access_key(k0) {
                    lemma_access_key_encoding_shape(k0);
                    match k0.permission {
                        AccessKeyPermission::FullAccess => {
                            assert(b@[8] == 1);
                            assert(false);
                        },
                        AccessKeyPermission::FunctionCall {
                            allowance: al0,
                            receiver_id: recv0,
                            ..
                        } => {
                            match al0 {
                                None => {
                                    assert(b@[9] == 0 && spec_allowance_end(al0) == 10);
                                },
                                Some(_) => {
                                    assert(b@[9] == 1 && spec_allowance_end(al0) == 26);
                                },
                            }
                            assert(apos == spec_allowance_end(al0));
                            lemma_le_val_le_bytes(recv0@.len(), 4);
                            lemma_le_val_le_bytes(receiver_id@.len(), 4);
                            assert(receiver_id@.len() == recv0@.len());
                            assert(b@.len() >= rend + 4);
                            assert(false);
                        },
                    }
                }
            }
        }
        return Err(DecodeError::DeserializationError);
    }
    proof {
        lemma_le_val_bound(b@.subrange(rend as int, rend + 4));
    }
    let cnt = read_le(b, rend, 4) as usize;
    proof {
        lemma_le_bytes_le_val(b@.subrange(rend as int, rend + 4));
    }
    let mstart = rend + 4;
    let mut method_names: Vec<Vec<u8>> = Vec::new();
    let mut p: usize = mstart;
    let mut j: usize = 0;
    assert(b@.subrange(mstart as int, p as int) =~= spec_cat(method_names@));
    while j < cnt
        invariant
            j <= cnt,
            cnt < pow256(4),
            10 <= mstart <= p <= total,
            total == b@.len(),
            b@[8] == 0,
            (b@[9] == 0 && apos == 10) || (b@[9] == 1 && apos == 26),
            apos + 4 <= rend,
            rend + 4 == mstart,
            rend == apos + 4 + receiver_id@.len(),
            receiver_id@.len() < pow256(4),
            b@.subrange(apos as int, apos + 4) == le_bytes(receiver_id@.len(), 4),
            cnt as nat == le_val(b@.subrange(rend as int, rend + 4)),
            method_names@.len() == j,
            b@.subrange(mstart as int, p as int) == spec_cat(method_names@),
            forall|i: int|
                0 <= i < method_names@.len() ==> (#[trigger] method_names@[i])@.len() < pow256(4),
        decreases cnt - j,
    {
        match read_bytes(b, p) {
            Err(_) => {
                proof {
                    lemma_decode_tail_matches(
                        b@,
                        apos as int,
                        rend as int,
                        p as int,
                        receiver_id@.len() as int,
                        cnt as nat,
                        method_names@,
                    );
                }
                return Err(DecodeError::DeserializationError);
            },
            Ok(q) => {
                proof {
                    lemma_cat_snoc(method_names@, q.0);
                    assert(b@.subrange(mstart as int, q.1 as int) =~= b@.subrange(
                        mstart as int,
                        p as int,
                    ) + b@.subrange(p as int, q.1 as int));
                }
                let ghost before = method_names@;
                method_names.push(q.0);
                assert(method_names@ =~= before.push(q.0));
                p = q.1;
            },
        }
        j = j + 1;
    }
    if p != total {
        proof {
            lemma_decode_tail_matches(
                b@,
                apos as int,
                rend as int,
                p as int,
                receiver_id@.len() as int,
                cnt as nat,
                method_names@,
            );
        }
        return Err(DecodeError::DeserializationError);
    }
    let perm = AccessKeyPermission::FunctionCall { allowance, receiver_id, method_names };
    let k = AccessKey { nonce, permission: perm };
    proof {
        assert(b@.subrange(0, 9) =~= le_bytes(nonce as nat, 8) + seq![0u8]);
        assert(b@ =~= b@.subrange(0, 9) + b@.subrange(9, apos as int) + b@.subrange(
            apos as int,
            rend as int,
        ) + b@.subrange(rend as int, mstart as int) + b@.subrange(mstart as int, total as int));
        assert(spec_encode_access_key(k) =~= le_bytes(nonce as nat, 8) + seq![0u8]
            + spec_encode_allowance(allowance) + spec_encode_bytes(receiver_id@) + le_bytes(
            method_names@.len(),
            4,
        ) + spec_cat(method_names@));
        assert(b@.subrange(9, apos as int) =~= spec_encode_allowance(allowance));
        assert(b@ =~= spec_encode_access_key(k));
    }
    Ok(k)
}

} // verus!
