//! What the chain stores of an account, and the nonce that its next transaction takes.
use crate::scale::{law_le_bytes_read_back, le_bytes, le_value};
use parity_scale_codec::Decode;
use vstd::arithmetic::power::pow;
use vstd::prelude::*;

verus! {

/// What the sender reads of an account's state.
#[derive(Clone, Copy, Debug, PartialEq, Eq, Structural)]
pub struct AccountInfo {
    /// The number of transactions that the account has sent.
    pub nonce: u32,
    /// The part of the balance that the account's holder can spend.
    pub free: u128,
}

/// Why an account's state is not known.
#[derive(Debug, PartialEq, Eq)]
pub enum AccountError {
    /// The node did not answer; holds what the client says of it.
    Subxt(String),
    /// The node's answer is no account state.
    Codec,
}

impl AccountError {
    /// The text that describes the error.
    pub open spec fn text(self) -> Seq<char> {
        match self {
            AccountError::Subxt(e) => "Subxt error: "@ + e@,
            AccountError::Codec => "SCALE codec error"@,
        }
    }

    /// Returns the text that describes the error.
    pub fn to_string(&self) -> (s: String)
        ensures
            s@ == self.text(),
    {
        match self {
            AccountError::Subxt(e) => {
                let mut s: String = "Subxt error: ".to_owned();
                s.append(e.as_str());
                s
            },
            AccountError::Codec => "SCALE codec error".to_owned(),
        }
    }
}

/// Length of an encoded account state: the nonce and three reference counts of four bytes, then
/// the free, reserved and frozen balances and the flags, of sixteen bytes each.
pub const ACCOUNT_INFO_LEN: usize = 80;

/// The account state that `encoded` starts with, if it is long enough to hold one.
pub open spec fn account_info(encoded: Seq<u8>) -> Option<AccountInfo> {
    if encoded.len() >= ACCOUNT_INFO_LEN {
        Some(
            AccountInfo {
                nonce: le_value(encoded.subrange(0, 4)) as u32,
                free: le_value(encoded.subrange(16, 32)) as u128,
            },
        )
    } else {
        None
    }
}

/// Calls `decode` of `parity_scale_codec` for `frame_system::AccountInfo` with a nonce of type
/// `u32` and the `pallet_balances::AccountData` of `u128` balances.
///
/// It reads the fields in the order in which the two structs declare them, each as a
/// little-endian number, and fails exactly where the bytes end before the last of them does.
/// What follows is not read.
#[verifier::external_body]
fn codec_account_info(encoded: &[u8]) -> (res: Result<AccountInfo, parity_scale_codec::Error>)
    ensures
        res.is_ok() == (encoded@.len() >= ACCOUNT_INFO_LEN),
        res matches Ok(info) ==> {
            &&& info.nonce == le_value(encoded@.subrange(0, 4))
            &&& info.free == le_value(encoded@.subrange(16, 32))
        },
{
    let info = frame_system::AccountInfo::<u32, pallet_balances::AccountData<u128>>::decode(
        &mut &encoded[..],
    )?;
    Ok(AccountInfo { nonce: info.nonce, free: info.data.free })
}

/// Decodes an account's state.
pub fn decode_account_info(encoded: &[u8]) -> (res: Result<AccountInfo, AccountError>)
    ensures
        match res {
            Ok(info) => account_info(encoded@) == Some(info),
            Err(e) => account_info(encoded@).is_none() && e == AccountError::Codec,
        },
{
    match codec_account_info(encoded) {
        Ok(info) => Ok(info),
        Err(_) => Err(AccountError::Codec),
    }
}

/// Returns the nonce that the encoded state of an account holds.
pub fn get_account_nonce(encoded: &[u8]) -> (res: Result<u64, AccountError>)
    ensures
        match res {
            Ok(nonce) => {
                &&& account_info(encoded@) matches Some(info)
                &&& nonce == info.nonce
                &&& nonce == le_value(encoded@.subrange(0, 4))
            },
            Err(e) => account_info(encoded@).is_none() && e == AccountError::Codec,
        },
{
    match codec_account_info(encoded) {
        Ok(info) => Ok(info.nonce as u64),
        Err(_) => Err(AccountError::Codec),
    }
}

/// Why there is no nonce to send with.
#[derive(Debug, PartialEq, Eq)]
pub enum NonceError {
    /// The account's state could not be fetched; holds what the client says of it.
    NotFetched(String),
    /// The chain knows nothing of the account.
    NotSet,
    /// What was fetched is no account state.
    Undecodable,
}

/// The nonce of an account, from what a fetch of its state gave.
pub open spec fn nonce_from(fetched: Result<Option<Vec<u8>>, String>) -> Result<u64, NonceError> {
    match fetched {
        Err(text) => Err(NonceError::NotFetched(text)),
        Ok(None) => Err(NonceError::NotSet),
        Ok(Some(encoded)) => match account_info(encoded@) {
            None => Err(NonceError::Undecodable),
            Some(info) => Ok(info.nonce as u64),
        },
    }
}

/// Returns the nonce of an account from what a fetch of its state gave: the encoded state, or
/// `None` where the chain knows nothing of the account, or what the client says of a failure.
pub fn fetched_account_nonce(fetched: Result<Option<Vec<u8>>, String>) -> (res: Result<
    u64,
    NonceError,
>)
    ensures
        res == nonce_from(fetched),
        match fetched {
            Err(text) => res == Err::<u64, NonceError>(NonceError::NotFetched(text)),
            Ok(None) => res == Err::<u64, NonceError>(NonceError::NotSet),
            Ok(Some(encoded)) => match account_info(encoded@) {
                None => res == Err::<u64, NonceError>(NonceError::Undecodable),
                Some(info) => res == Ok::<u64, NonceError>(info.nonce as u64),
            },
        },
        fetched matches Ok(Some(encoded)) ==> (res matches Ok(nonce) ==> nonce == le_value(
            encoded@.subrange(0, 4),
        )),
{
    match fetched {
        Err(text) => Err(NonceError::NotFetched(text)),
        Ok(None) => Err(NonceError::NotSet),
        Ok(Some(encoded)) => match get_account_nonce(encoded.as_slice()) {
            Ok(nonce) => Ok(nonce),
            Err(_) => Err(NonceError::Undecodable),
        },
    }
}

/// A read of one entry of the chain's storage.
#[derive(Debug, PartialEq, Eq)]
pub struct StorageQuery {
    /// The pallet that owns the entry.
    pub pallet: String,
    /// The entry's name.
    pub entry: String,
    /// The key under which the value is looked up.
    pub key: Vec<u8>,
    /// The hash of the block whose storage is read.
    pub at: [u8; 32],
}

/// Returns the query for the state, at a block, of the account with this public key.
pub fn account_query(public: &[u8], block: [u8; 32]) -> (q: StorageQuery)
    ensures
        q.pallet@ == "System"@,
        q.entry@ == "Account"@,
        q.key@ == public@,
        q.at == block,
{
    StorageQuery {
        pallet: "System".to_owned(),
        entry: "Account".to_owned(),
        key: vstd::slice::slice_to_vec(public),
        at: block,
    }
}

/// Bytes hold an account state wherever there are 80 of them or more. Its nonce is the number
/// that the first four of them make, the least significant first.
pub proof fn law_nonce_is_in_the_first_bytes(encoded: Seq<u8>)
    ensures
        account_info(encoded).is_some() <==> encoded.len() >= 80,
        account_info(encoded) matches Some(info) ==> info.nonce == encoded[0] + 0x100 * encoded[1]
            + 0x1_0000 * encoded[2] + 0x100_0000 * encoded[3],
{
    if encoded.len() >= 80 {
        let s = encoded.subrange(0, 4);
        reveal_with_fuel(le_value, 5);
        assert(s.drop_first().drop_first().drop_first()[0] == encoded[3]);
        assert(s.drop_first().drop_first()[0] == encoded[2]);
        assert(s.drop_first()[0] == encoded[1]);
        assert(s.drop_first().drop_first().drop_first().drop_first().len() == 0);
    }
}

/// Decoding an encoded account state gives back the nonce and the free balance that were
/// encoded, whatever the reference counts and the other balances are, and whatever follows.
pub proof fn law_account_state_reads_back(
    nonce: u32,
    counts: Seq<u8>,
    free: u128,
    rest: Seq<u8>,
)
    requires
        counts.len() == 12,
        rest.len() >= 48,
    ensures
        account_info(le_bytes(nonce as nat, 4) + counts + le_bytes(free as nat, 16) + rest)
            == Some(AccountInfo { nonce, free }),
{
    reveal(pow);
    reveal_with_fuel(pow, 17);
    assert(pow(256, 4) == 0x1_0000_0000);
    assert(pow(256, 16) == 0x1_0000_0000_0000_0000_0000_0000_0000_0000);
    law_le_bytes_read_back(nonce as nat, 4);
    law_le_bytes_read_back(free as nat, 16);
    let a = le_bytes(nonce as nat, 4);
    let b = le_bytes(free as nat, 16);
    let encoded = a + counts + b + rest;
    assert(encoded.subrange(0, 4) =~= a);
    assert(encoded.subrange(16, 32) =~= b);
}

/// The text of an error names where it comes from, and holds the whole of what the client says.
pub proof fn law_error_text_holds_what_the_client_says(e: String)
    ensures
        AccountError::Subxt(e).text() == "Subxt error: "@ + e@,
        AccountError::Codec.text() == "SCALE codec error"@,
{
}

/// A nonce comes from a fetch exactly where it gave 80 bytes or more, and is the number that the
/// first four of them make, the least significant first. Each way in which it can be missing has
/// an error of its own.
pub proof fn law_fetched_nonce_is_in_the_first_bytes(encoded: Vec<u8>, text: String)
    ensures
        encoded@.len() >= 80 ==> (nonce_from(Ok(Some(encoded))) matches Ok(nonce) && nonce
            == encoded@[0] + 0x100 * encoded@[1] + 0x1_0000 * encoded@[2] + 0x100_0000
            * encoded@[3]),
        encoded@.len() < 80 ==> nonce_from(Ok(Some(encoded))) == Err::<u64, NonceError>(
            NonceError::Undecodable,
        ),
        nonce_from(Ok(None)) == Err::<u64, NonceError>(NonceError::NotSet),
        nonce_from(Err(text)) == Err::<u64, NonceError>(NonceError::NotFetched(text)),
{
    law_nonce_is_in_the_first_bytes(encoded@);
}

} // verus!
