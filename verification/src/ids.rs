use vstd::prelude::*;
use crate::bytes::copy_bytes;
use crate::errors::DecodeError;

verus! {

/// A lower-case letter, a digit, or one of the separators `.`, `_`, `-`.
pub open spec fn is_id_byte(b: u8) -> bool {
    (97 <= b <= 122) || (48 <= b <= 57) || b == 46 || b == 95 || b == 45
}

/// A lower-case letter or a digit.
pub open spec fn is_id_alnum(b: u8) -> bool {
    (97 <= b <= 122) || (48 <= b <= 57)
}

/// One of the separators `.`, `_`, `-`.
pub open spec fn is_id_separator(b: u8) -> bool {
    b == 46 || b == 95 || b == 45
}

/// A valid account identifier: 2 to 64 bytes, each a lower-case letter, a
/// digit or a separator; it starts and ends with a letter or digit, and no
/// two separators are adjacent. In particular it never contains `:`, which
/// the cache-key layout uses to delimit components.
pub open spec fn valid_account_id(s: Seq<u8>) -> bool {
    &&& 2 <= s.len() <= 64
    &&& forall|i: int| 0 <= i < s.len() ==> is_id_byte(#[trigger] s[i])
    &&& is_id_alnum(s[0])
    &&& is_id_alnum(s[s.len() - 1])
    &&& forall|i: int|
        0 <= i < s.len() - 1 ==> !(is_id_separator(#[trigger] s[i]) && is_id_separator(s[i + 1]))
}

/// An opaque, validated account identifier; immutable once constructed.
pub struct AccountId {
    text: Vec<u8>,
}

impl View for AccountId {
    type V = Seq<u8>;

    closed spec fn view(&self) -> Seq<u8> {
        self.text@
    }
}

impl AccountId {
    /// The identifier is well formed; constructors establish this and every
    /// operation preserves it, since the value is immutable.
    pub open spec fn wf(&self) -> bool {
        valid_account_id(self@)
    }

    /// Validates `text` as an account identifier.
    pub fn new(text: Vec<u8>) -> (r: Result<AccountId, DecodeError>)
        ensures
            r is Ok <==> valid_account_id(text@),
            r matches Ok(a) ==> a@ == text@ && a.wf(),
            r is Err ==> r == Result::<AccountId, DecodeError>::Err(
                DecodeError::DeserializationError,
            ),
    {
        if text.len() < 2 || text.len() > 64 {
            return Err(DecodeError::DeserializationError);
        }
        let first = text[0];
        let last = text[text.len() - 1];
        if !byte_is_alnum(first) || !byte_is_alnum(last) {
            return Err(DecodeError::DeserializationError);
        }
        let mut i: usize = 0;
        while i < text.len()
            invariant
                i <= text.len(),
                forall|j: int| 0 <= j < i ==> is_id_byte(#[trigger] text@[j]),
                forall|j: int|
                    0 <= j < i - 1 ==> !(is_id_separator(#[trigger] text@[j]) && is_id_separator(
                        text@[j + 1],
                    )),
            decreases text.len() - i,
        {
            let b = text[i];
            if !(byte_is_alnum(b) || b == 46 || b == 95 || b == 45) {
                return Err(DecodeError::DeserializationError);
            }
            if i > 0 {
                let prev = text[i - 1];
                if byte_is_separator(prev) && byte_is_separator(b) {
                    return Err(DecodeError::DeserializationError);
                }
            }
            i = i + 1;
        }
        Ok(AccountId { text })
    }

    /// The identifier's bytes.
    pub fn as_bytes(&self) -> (r: &Vec<u8>)
        ensures
            r@ == self@,
    {
        &self.text
    }

    /// A fresh copy of the identifier, equal to this one.
    pub fn duplicate(&self) -> (r: AccountId)
        ensures
            r@ == self@,
    {
        AccountId { text: copy_bytes(&self.text) }
    }
}

/// True exactly when `b` is a lower-case letter or a digit.
fn byte_is_alnum(b: u8) -> (r: bool)
    ensures
        r <==> is_id_alnum(b),
{
    (97 <= b && b <= 122) || (48 <= b && b <= 57)
}

/// True exactly when `b` is a separator.
fn byte_is_separator(b: u8) -> (r: bool)
    ensures
        r <==> is_id_separator(b),
{
    b == 46 || b == 95 || b == 45
}

} // verus!
