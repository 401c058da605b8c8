use parity_scale_codec::Encode;
use sender::account::{
    account_query, decode_account_info, fetched_account_nonce, get_account_nonce, AccountError,
    AccountInfo, NonceError, ACCOUNT_INFO_LEN,
};

fn encoded(nonce: u32, free: u128) -> Vec<u8> {
    frame_system::AccountInfo::<u32, pallet_balances::AccountData<u128>> {
        nonce,
        consumers: 0x0101_0101,
        providers: 0x0202_0202,
        sufficients: 0x0303_0303,
        data: pallet_balances::AccountData {
            free,
            reserved: 5,
            frozen: 6,
            ..Default::default()
        },
    }
    .encode()
}

#[test]
fn account_state_decodes() {
    let bytes = encoded(0xdead_beef, 0x0102_0304_0506_0708_090a_0b0c_0d0e_0f10);
    assert_eq!(bytes.len(), ACCOUNT_INFO_LEN);
    assert_eq!(
        decode_account_info(&bytes),
        Ok(AccountInfo { nonce: 0xdead_beef, free: 0x0102_0304_0506_0708_090a_0b0c_0d0e_0f10 })
    );
}

#[test]
fn account_nonce_is_little_endian() {
    let mut bytes = vec![0u8; ACCOUNT_INFO_LEN];
    bytes[0] = 1;
    bytes[1] = 2;
    bytes[4] = 9;
    assert_eq!(get_account_nonce(&bytes), Ok(513));
    assert_eq!(get_account_nonce(&encoded(u32::MAX, 0)), Ok(u32::MAX as u64));
    bytes.push(77);
    assert_eq!(get_account_nonce(&bytes), Ok(513));
}

#[test]
fn short_account_state_is_a_codec_error() {
    let bytes = encoded(1, 2);
    for len in 0..ACCOUNT_INFO_LEN {
        assert_eq!(get_account_nonce(&bytes[..len]), Err(AccountError::Codec));
        assert_eq!(decode_account_info(&bytes[..len]), Err(AccountError::Codec));
    }
}

#[test]
fn account_errors_have_texts() {
    assert_eq!(AccountError::Codec.to_string(), "SCALE codec error");
    assert_eq!(
        AccountError::Subxt("connection closed".to_string()).to_string(),
        "Subxt error: connection closed"
    );
}

#[test]
fn account_query_names_the_account() {
    let query = account_query(&[1, 2, 3], [9; 32]);
    assert_eq!(query.pallet, "System");
    assert_eq!(query.entry, "Account");
    assert_eq!(query.key, vec![1, 2, 3]);
    assert_eq!(query.at, [9; 32]);
}

#[test]
fn a_fetched_nonce_needs_an_account_that_decodes() {
    assert_eq!(fetched_account_nonce(Ok(Some(encoded(41, 7)))), Ok(41));
    assert_eq!(fetched_account_nonce(Ok(None)), Err(NonceError::NotSet));
    assert_eq!(fetched_account_nonce(Ok(Some(vec![1, 2, 3]))), Err(NonceError::Undecodable));
    assert_eq!(
        fetched_account_nonce(Err("timeout".to_string())),
        Err(NonceError::NotFetched("timeout".to_string()))
    );
}
