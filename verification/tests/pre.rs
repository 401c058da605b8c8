use sender::account::AccountInfo;
use sender::pre::{
    account_range, account_state_query, account_uri, check_account, derive_account, pre_conditions, Phase,
    PreConditionError, PreConditions, Reply, Request,
};
use sp_core::Pair;

const DEPOSIT: u128 = 1_000_000;

fn fit() -> Option<AccountInfo> {
    Some(AccountInfo { nonce: 0, free: 2_000_000 })
}

/// Tells the check of one account whatever it asks for.
fn tell(check: &mut PreConditions, account: Option<AccountInfo>) -> Request {
    assert_eq!(check.step(Reply::Deposit(DEPOSIT)), Request::Head);
    let hash = [check.next as u8; 32];
    let index = check.next;
    assert_eq!(check.step(Reply::Head { hash }), Request::Account { index, at: hash });
    check.step(Reply::Account(account))
}

#[test]
fn senders_share_out_the_accounts() {
    assert_eq!(account_range(0, 10), Some((0, 10)));
    assert_eq!(account_range(3, 10), Some((30, 40)));
    assert_eq!(account_range(4, 10), Some((40, 50)));
    assert_eq!(account_range(7, 0), Some((0, 0)));
    assert_eq!(account_range(0, usize::MAX), Some((0, usize::MAX)));
    assert_eq!(account_range(1, usize::MAX), None);
    assert_eq!(account_range(usize::MAX, 0), None);
    assert_eq!(account_range(usize::MAX, 1), None);
}

#[test]
fn uris_end_in_the_index() {
    assert_eq!(account_uri("//Sender//", 0), "//Sender//0");
    assert_eq!(account_uri("//Sender//", 9), "//Sender//9");
    assert_eq!(account_uri("//Sender//", 10), "//Sender//10");
    assert_eq!(account_uri("//Sender//", 1_234_567_890), "//Sender//1234567890");
    assert_eq!(account_uri("", usize::MAX), format!("{}", usize::MAX));
}

#[test]
fn accounts_have_their_own_uri() {
    let uris: std::collections::HashSet<String> =
        (0..2000usize).map(|j| account_uri("//Sender/", j)).collect();
    assert_eq!(uris.len(), 2000);
}

#[test]
fn accounts_are_derived_from_their_uri() {
    for j in [0usize, 1, 12] {
        let pair = sp_core::sr25519::Pair::from_string(&format!("//Sender//{}", j), None).unwrap();
        let public = pair.public().0.to_vec();
        assert_eq!(derive_account("//Sender//", j), Some(public));
    }
    assert_ne!(derive_account("//Sender//", 0), derive_account("//Sender//", 1));
    assert_eq!(derive_account("no phrase at all ", 0), None);
    assert_eq!(derive_account("?", 0), None);
}

#[test]
fn check_account_looks_at_nonce_and_funds() {
    assert_eq!(check_account(DEPOSIT, fit()), Ok(()));
    assert_eq!(check_account(DEPOSIT, None), Err(PreConditionError::MissingAccount));
    assert_eq!(
        check_account(DEPOSIT, Some(AccountInfo { nonce: 1, free: 0 })),
        Err(PreConditionError::NonZeroNonce)
    );
    assert_eq!(
        check_account(DEPOSIT, Some(AccountInfo { nonce: 0, free: DEPOSIT })),
        Err(PreConditionError::InsufficientFunds)
    );
}

#[test]
fn a_tenth_for_fees_is_enough() {
    let account = Some(AccountInfo { nonce: 0, free: 366_666_667 });
    assert_eq!(check_account(333_333_333, account), Ok(()));
    let account = Some(AccountInfo { nonce: 0, free: 366_666_666 });
    assert_eq!(check_account(333_333_333, account), Err(PreConditionError::InsufficientFunds));
}

#[test]
fn accounts_are_asked_for_at_the_finalized_head() {
    let (mut check, _) = pre_conditions(0, 1, false).unwrap();
    check.step(Reply::Deposit(DEPOSIT));
    assert_eq!(
        check.step(Reply::Head { hash: [3; 32] }),
        Request::Account { index: 0, at: [3; 32] }
    );
}

#[test]
fn fit_accounts_pass() {
    let (mut check, first) = pre_conditions(2, 3, false).unwrap();
    assert_eq!(first, Request::Deposit { index: 6 });
    assert_eq!(tell(&mut check, fit()), Request::Deposit { index: 7 });
    assert_eq!(tell(&mut check, fit()), Request::Deposit { index: 8 });
    assert_eq!(tell(&mut check, fit()), Request::Passed);
    assert_eq!(check.phase, Phase::Over);
}

#[test]
fn the_first_unfit_account_fails() {
    let (mut check, _) = pre_conditions(0, 3, false).unwrap();
    assert_eq!(tell(&mut check, fit()), Request::Deposit { index: 1 });
    let used = Some(AccountInfo { nonce: 5, free: 2_000_000 });
    assert_eq!(tell(&mut check, used), Request::Failed(PreConditionError::NonZeroNonce));
    assert_eq!(check.phase, Phase::Over);

    let (mut check, _) = pre_conditions(0, 3, false).unwrap();
    assert_eq!(tell(&mut check, None), Request::Failed(PreConditionError::MissingAccount));

    let (mut check, _) = pre_conditions(0, 3, false).unwrap();
    let poor = Some(AccountInfo { nonce: 0, free: 5 });
    assert_eq!(tell(&mut check, poor), Request::Failed(PreConditionError::InsufficientFunds));
}

#[test]
fn para_finality_looks_at_no_account() {
    let (mut check, first) = pre_conditions(1, 2, true).unwrap();
    assert_eq!(first, Request::Deposit { index: 2 });
    assert_eq!(check.step(Reply::Deposit(u128::MAX)), Request::Deposit { index: 3 });
    assert_eq!(check.step(Reply::Deposit(0)), Request::Passed);
}

fn failed(text: &str) -> Request {
    Request::Failed(PreConditionError::Request(text.to_string()))
}

#[test]
fn a_failed_request_ends_the_check() {
    let (mut check, _) = pre_conditions(0, 1, false).unwrap();
    assert_eq!(check.step(Reply::Failed("no constant".to_string())), failed("no constant"));
    assert_eq!(check.phase, Phase::Over);
    let (mut check, _) = pre_conditions(0, 1, false).unwrap();
    check.step(Reply::Deposit(DEPOSIT));
    assert_eq!(check.step(Reply::Failed("no head".to_string())), failed("no head"));
    assert_eq!(check.phase, Phase::Over);
    let (mut check, _) = pre_conditions(0, 1, false).unwrap();
    check.step(Reply::Deposit(DEPOSIT));
    check.step(Reply::Head { hash: [7; 32] });
    assert_eq!(check.step(Reply::Failed("no state".to_string())), failed("no state"));
    assert_eq!(check.phase, Phase::Over);
}

#[test]
fn the_failure_of_a_later_account_is_reported() {
    let (mut check, _) = pre_conditions(0, 2, false).unwrap();
    assert_eq!(tell(&mut check, fit()), Request::Deposit { index: 1 });
    assert_eq!(check.step(Reply::Failed("closed".to_string())), failed("closed"));
}

#[test]
fn the_state_of_an_account_is_queried_by_its_own_key() {
    let query = account_state_query("//Sender//", 12, [5; 32]).unwrap();
    let pair = sp_core::sr25519::Pair::from_string("//Sender//12", None).unwrap();
    assert_eq!(query.pallet, "System");
    assert_eq!(query.entry, "Account");
    assert_eq!(query.key, pair.public().0.to_vec());
    assert_eq!(query.at, [5; 32]);
    assert_eq!(account_state_query("?", 12, [5; 32]), None);
}

#[test]
fn senders_without_accounts_pass() {
    let (check, first) = pre_conditions(4, 0, false).unwrap();
    assert_eq!(first, Request::Passed);
    assert_eq!(check.phase, Phase::Over);
    assert!(pre_conditions(usize::MAX, 2, false).is_none());
}
