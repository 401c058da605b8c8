//! The check, before anything is sent, that a sender's accounts are fresh and funded.
use crate::account::{account_query, AccountInfo, StorageQuery};
use crate::funds::{has_insufficient_funds, insufficient};
use sp_core::Pair;
use vstd::arithmetic::div_mod::{lemma_fundamental_div_mod, lemma_fundamental_div_mod_converse};
use vstd::prelude::*;

verus! {

/// Why `sp_core` could not derive a key pair.
#[verifier::external_type_specification]
#[verifier::external_body]
pub struct ExSecretStringError(sp_core::crypto::SecretStringError);

/// Decimal digit `d`.
pub open spec fn digit(d: nat) -> char {
    (48 + d) as char
}

/// `n` in decimal digits, without leading zeros.
pub open spec fn decimal(n: nat) -> Seq<char>
    decreases n,
{
    if n < 10 {
        seq![digit(n)]
    } else {
        decimal(n / 10).push(digit(n % 10))
    }
}

/// Returns a decimal digit as text.
fn digit_str(d: usize) -> (s: &'static str)
    requires
        d < 10,
    ensures
        s@ == seq![digit(d as nat)],
{
    proof {
        reveal_strlit("0");
        reveal_strlit("1");
        reveal_strlit("2");
        reveal_strlit("3");
        reveal_strlit("4");
        reveal_strlit("5");
        reveal_strlit("6");
        reveal_strlit("7");
        reveal_strlit("8");
        reveal_strlit("9");
    }
    match d {
        0 => "0",
        1 => "1",
        2 => "2",
        3 => "3",
        4 => "4",
        5 => "5",
        6 => "6",
        7 => "7",
        8 => "8",
        _ => "9",
    }
}

/// Returns `n` in decimal digits.
fn decimal_string(n: usize) -> (s: String)
    ensures
        s@ == decimal(n as nat),
    decreases n,
{
    if n < 10 {
        digit_str(n).to_owned()
    } else {
        let mut s: String = decimal_string(n / 10);
        s.append(digit_str(n % 10));
        s
    }
}

/// The secret URI of the account with index `j`.
pub open spec fn uri_of(derivation: Seq<char>, j: nat) -> Seq<char> {
    derivation + decimal(j)
}

/// Returns the secret URI of the account with index `j`: the derivation path that all accounts
/// share, then the index.
pub fn account_uri(derivation: &str, j: usize) -> (uri: String)
    ensures
        uri@ == uri_of(derivation@, j as nat),
{
    let mut uri: String = derivation.to_owned();
    uri.append(decimal_string(j).as_str());
    uri
}

/// The public key of the key pair that `sp_core::sr25519::Pair::from_string` derives from a
/// secret URI without a password override; `None` where it derives none.
pub uninterp spec fn sr25519_public(uri: Seq<char>) -> Option<Seq<u8>>;

/// Calls `sp_core::sr25519::Pair::from_string` on a secret URI, without a password override, and
/// hands out the public key of the pair that it derives.
///
/// The key depends on the URI alone, and has 32 bytes. Which key belongs to which URI is not
/// said.
#[verifier::external_body]
fn sp_core_public(uri: &str) -> (res: Result<Vec<u8>, sp_core::crypto::SecretStringError>)
    ensures
        match res {
            Ok(public) => sr25519_public(uri@) == Some(public@) && public@.len() == 32,
            Err(_) => sr25519_public(uri@).is_none(),
        },
{
    let pair = sp_core::sr25519::Pair::from_string(uri, None)?;
    Ok(pair.public().0.to_vec())
}

/// Returns the public key, which is also the address, of the account with index `j`; `None`
/// where its secret URI names no key pair.
pub fn derive_account(derivation: &str, j: usize) -> (res: Option<Vec<u8>>)
    ensures
        match res {
            Some(public) => sr25519_public(uri_of(derivation@, j as nat)) == Some(public@)
                && public@.len() == 32,
            None => sr25519_public(uri_of(derivation@, j as nat)).is_none(),
        },
{
    let uri: String = account_uri(derivation, j);
    match sp_core_public(uri.as_str()) {
        Ok(public) => Some(public),
        Err(_) => None,
    }
}

/// Returns the query for the state, at a block, of the account with this index; `None` where its
/// secret URI names no key pair.
pub fn account_state_query(derivation: &str, index: usize, at: [u8; 32]) -> (res: Option<
    StorageQuery,
>)
    ensures
        match res {
            Some(q) => {
                &&& q.pallet@ == "System"@
                &&& q.entry@ == "Account"@
                &&& q.at == at
                &&& sr25519_public(uri_of(derivation@, index as nat)) == Some(q.key@)
            },
            None => sr25519_public(uri_of(derivation@, index as nat)).is_none(),
        },
{
    match derive_account(derivation, index) {
        Some(public) => Some(account_query(public.as_slice(), at)),
        None => None,
    }
}

/// Two accounts never share a secret URI.
pub proof fn law_accounts_have_their_own_uri(derivation: Seq<char>, j: nat, k: nat)
    requires
        uri_of(derivation, j) == uri_of(derivation, k),
    ensures
        j == k,
{
    let a = uri_of(derivation, j);
    let b = uri_of(derivation, k);
    let n = derivation.len() as int;
    assert(a.skip(n) =~= decimal(j));
    assert(b.skip(n) =~= decimal(k));
    lemma_decimal_injective(j, k);
}

proof fn lemma_decimal_len(n: nat)
    ensures
        decimal(n).len() >= 1,
        decimal(n).len() == 1 <==> n < 10,
        decimal(n).last() == digit(n % 10),
    decreases n,
{
    if n >= 10 {
        lemma_decimal_len(n / 10);
    }
}

proof fn lemma_decimal_injective(j: nat, k: nat)
    requires
        decimal(j) == decimal(k),
    ensures
        j == k,
    decreases j,
{
    lemma_decimal_len(j);
    lemma_decimal_len(k);
    assert(digit(j % 10) == digit(k % 10));
    if j >= 10 {
        assert(decimal(j).drop_last() =~= decimal(j / 10));
        assert(decimal(k).drop_last() =~= decimal(k / 10));
        lemma_decimal_injective(j / 10, k / 10);
    }
}

/// Why the accounts of a sender are not fit to send.
#[derive(Debug, PartialEq, Eq)]
pub enum PreConditionError {
    /// A request failed; holds what the client says of it.
    Request(String),
    /// The chain knows nothing of an account.
    MissingAccount,
    /// An account has sent transactions before.
    NonZeroNonce,
    /// An account does not hold the existential deposit and 10% for fees.
    InsufficientFunds,
}

/// What keeps an account from being fit to send, if anything does.
pub open spec fn account_fault(ext_deposit: u128, account: Option<AccountInfo>) -> Option<
    PreConditionError,
> {
    match account {
        None => Some(PreConditionError::MissingAccount),
        Some(info) => if info.nonce != 0 {
            Some(PreConditionError::NonZeroNonce)
        } else if insufficient(info.free as nat, ext_deposit as nat) {
            Some(PreConditionError::InsufficientFunds)
        } else {
            None
        },
    }
}

/// Checks an account's nonce and free balance.
pub fn check_account(ext_deposit: u128, account: Option<AccountInfo>) -> (res: Result<
    (),
    PreConditionError,
>)
    ensures
        match res {
            Ok(_) => account_fault(ext_deposit, account).is_none(),
            Err(e) => account_fault(ext_deposit, account) == Some(e),
        },
        res.is_ok() <==> (account matches Some(info) && info.nonce == 0 && 10 * info.free >= 11
            * ext_deposit),
        account matches Some(info) ==> (info.nonce != 0 <==> res == Err::<(), PreConditionError>(
            PreConditionError::NonZeroNonce,
        )),
{
    match account {
        None => Err(PreConditionError::MissingAccount),
        Some(info) => if info.nonce != 0 {
            Err(PreConditionError::NonZeroNonce)
        } else if has_insufficient_funds(info.free, ext_deposit) {
            Err(PreConditionError::InsufficientFunds)
        } else {
            Ok(())
        },
    }
}

/// The accounts of sender `i` where each sender has `n`: the first index, and the one behind
/// the last. There are none where the latter is no `usize`.
pub open spec fn accounts_of(i: usize, n: usize) -> Option<(usize, usize)> {
    if i == usize::MAX || (i + 1) * n > usize::MAX {
        None
    } else {
        Some(((i * n) as usize, ((i + 1) * n) as usize))
    }
}

/// Returns the accounts of sender `i` where each sender has `n`.
pub fn account_range(i: usize, n: usize) -> (res: Option<(usize, usize)>)
    ensures
        res == accounts_of(i, n),
{
    if i == usize::MAX {
        return None;
    }
    match (i + 1).checked_mul(n) {
        None => None,
        Some(end) => {
            assert((i + 1) * n == i * n + n) by (nonlinear_arith);
            Some((end - n, end))
        },
    }
}

/// The accounts of one sender end where those of the next one begin.
pub proof fn law_ranges_are_adjacent(i: usize, n: usize)
    requires
        i < usize::MAX,
        accounts_of((i + 1) as usize, n).is_some(),
    ensures
        accounts_of(i, n).is_some(),
        accounts_of(i, n).unwrap().1 == accounts_of((i + 1) as usize, n).unwrap().0,
{
    assert((i + 2) * n == (i + 1) * n + n) by (nonlinear_arith);
    assert((i + 1) * n == i * n + n) by (nonlinear_arith);
}

/// Every sender has `n` accounts, and no account belongs to two senders.
pub proof fn law_ranges_are_disjoint(i: usize, k: usize, n: usize, j: usize)
    requires
        accounts_of(i, n) matches Some((start, end)) && start <= j < end,
        accounts_of(k, n) matches Some((start, end)) && start <= j < end,
    ensures
        i == k,
        accounts_of(i, n).unwrap().1 - accounts_of(i, n).unwrap().0 == n,
{
    assert((i + 1) * n == i * n + n) by (nonlinear_arith);
    assert((k + 1) * n == k * n + n) by (nonlinear_arith);
    assert(i * n >= 0 && k * n >= 0) by (nonlinear_arith);
    assert(i < k ==> (i + 1) * n <= k * n) by (nonlinear_arith);
    assert(k < i ==> (k + 1) * n <= i * n) by (nonlinear_arith);
}

/// How far the check of a sender's accounts has come.
#[derive(Clone, Copy, Debug, PartialEq, Eq, Structural)]
pub enum Phase {
    /// Waits for the existential deposit.
    Deposit,
    /// Waits for the finalized head.
    Head,
    /// Waits for the account's state.
    Account,
    /// Is over.
    Over,
}

/// What the node answers.
#[derive(Debug, PartialEq, Eq)]
pub enum Reply {
    /// The existential deposit.
    Deposit(u128),
    /// The hash of the finalized head.
    Head { hash: [u8; 32] },
    /// The account's state at that block; `None` where the chain knows nothing of it.
    Account(Option<AccountInfo>),
    /// The request failed; holds what the client says of it.
    Failed(String),
}

/// What the check does next.
#[derive(Debug, PartialEq, Eq)]
pub enum Request {
    /// Derive the account with this index and ask for the existential deposit.
    Deposit { index: usize },
    /// Ask for the finalized head.
    Head,
    /// Ask for the state of the account with this index at the block with this hash.
    Account { index: usize, at: [u8; 32] },
    /// Stop: all accounts are fit.
    Passed,
    /// Stop: an account is not fit, or a request failed.
    Failed(PreConditionError),
}

/// The check of the accounts of one sender.
#[derive(Clone, Copy, Debug, PartialEq, Eq, Structural)]
pub struct PreConditions {
    pub phase: Phase,
    /// The account that is being checked.
    pub next: usize,
    /// The index behind the last account.
    pub end: usize,
    /// Whether finality is that of a parachain; its accounts are not looked at.
    pub para_finality: bool,
    /// The existential deposit, once the node has told it for this account; zero before.
    pub ext_deposit: u128,
}

/// The check once `next` is the account to check, and its first request.
pub open spec fn begin(next: usize, end: usize, para_finality: bool) -> (PreConditions, Request) {
    if next < end {
        (
            PreConditions { phase: Phase::Deposit, next, end, para_finality, ext_deposit: 0 },
            Request::Deposit { index: next },
        )
    } else {
        (
            PreConditions { phase: Phase::Over, next, end, para_finality, ext_deposit: 0 },
            Request::Passed,
        )
    }
}

impl PreConditions {
    /// There is an account to check until the check is over.
    pub open spec fn wf(self) -> bool {
        self.phase == Phase::Over || self.next < self.end
    }

    /// Whether this reply answers the latest request.
    pub open spec fn awaits(self, reply: Reply) -> bool {
        match self.phase {
            Phase::Deposit => reply is Deposit || reply is Failed,
            Phase::Head => reply is Head || reply is Failed,
            Phase::Account => reply is Account || reply is Failed,
            Phase::Over => false,
        }
    }

    /// The check after the account at hand has passed, and the next request.
    pub open spec fn advance(self) -> (PreConditions, Request) {
        begin((self.next + 1) as usize, self.end, self.para_finality)
    }

    /// The check after it has failed, and how it ends.
    pub open spec fn fail(self, e: PreConditionError) -> (PreConditions, Request) {
        (PreConditions { phase: Phase::Over, ..self }, Request::Failed(e))
    }

    /// The check after a reply, and the next request.
    pub open spec fn after(self, reply: Reply) -> (PreConditions, Request) {
        match reply {
            Reply::Failed(text) => self.fail(PreConditionError::Request(text)),
            Reply::Deposit(ext_deposit) => if self.para_finality {
                self.advance()
            } else {
                (PreConditions { phase: Phase::Head, ext_deposit, ..self }, Request::Head)
            },
            Reply::Head { hash } => (
                PreConditions { phase: Phase::Account, ..self },
                Request::Account { index: self.next, at: hash },
            ),
            Reply::Account(account) => match account_fault(self.ext_deposit, account) {
                None => self.advance(),
                Some(e) => self.fail(e),
            },
        }
    }

    /// Whether these replies can come one after the other.
    pub open spec fn awaits_all(self, replies: Seq<Reply>) -> bool
        decreases replies.len(),
    {
        if replies.len() == 0 {
            true
        } else {
            self.awaits_all(replies.drop_last()) && self.run(replies.drop_last()).awaits(
                replies.last(),
            )
        }
    }

    /// The check after these replies.
    pub open spec fn run(self, replies: Seq<Reply>) -> PreConditions
        decreases replies.len(),
    {
        if replies.len() == 0 {
            self
        } else {
            self.run(replies.drop_last()).after(replies.last()).0
        }
    }

    /// The request that follows the last of these replies.
    pub open spec fn answer(self, replies: Seq<Reply>) -> Request {
        self.run(replies.drop_last()).after(replies.last()).1
    }

    /// Goes on to an account, or ends the check where there is none left.
    fn start(next: usize, end: usize, para_finality: bool) -> (res: (PreConditions, Request))
        ensures
            res == begin(next, end, para_finality),
    {
        if next < end {
            (
                PreConditions { phase: Phase::Deposit, next, end, para_finality, ext_deposit: 0 },
                Request::Deposit { index: next },
            )
        } else {
            (
                PreConditions { phase: Phase::Over, next, end, para_finality, ext_deposit: 0 },
                Request::Passed,
            )
        }
    }

    /// Goes on to the account behind the one at hand.
    fn go_on(&mut self) -> (request: Request)
        requires
            old(self).next < old(self).end,
        ensures
            (*final(self), request) == old(self).advance(),
    {
        let (check, request): (PreConditions, Request) = PreConditions::start(
            self.next + 1,
            self.end,
            self.para_finality,
        );
        *self = check;
        request
    }

    /// Ends the check with an error.
    fn give_up(&mut self, e: PreConditionError) -> (request: Request)
        ensures
            (*final(self), request) == old(self).fail(e),
    {
        self.phase = Phase::Over;
        Request::Failed(e)
    }

    /// Takes in the node's reply, and returns what the check does next.
    pub fn step(&mut self, reply: Reply) -> (request: Request)
        requires
            old(self).wf(),
            old(self).awaits(reply),
        ensures
            (*final(self), request) == old(self).after(reply),
            final(self).wf(),
    {
        match reply {
            Reply::Failed(text) => self.give_up(PreConditionError::Request(text)),
            Reply::Deposit(ext_deposit) => {
                if self.para_finality {
                    self.go_on()
                } else {
                    self.phase = Phase::Head;
                    self.ext_deposit = ext_deposit;
                    Request::Head
                }
            },
            Reply::Head { hash } => {
                self.phase = Phase::Account;
                Request::Account { index: self.next, at: hash }
            },
            Reply::Account(account) => match check_account(self.ext_deposit, account) {
                Ok(()) => self.go_on(),
                Err(e) => self.give_up(e),
            },
        }
    }
}

/// Starts to check the pre-conditions of the `n` accounts of sender `i`, and returns the first
/// request. There is no check where the accounts' indices do not fit a `usize`.
pub fn pre_conditions(i: usize, n: usize, para_finality: bool) -> (res: Option<
    (PreConditions, Request),
>)
    ensures
        match accounts_of(i, n) {
            None => res.is_none(),
            Some((first, end)) => res == Some(begin(first, end, para_finality)),
        },
        res matches Some((check, request)) ==> check.wf(),
{
    match account_range(i, n) {
        None => None,
        Some((first, end)) => Some(PreConditions::start(first, end, para_finality)),
    }
}

/// What a check is told of one account: the existential deposit, the hash of the finalized head,
/// and the account's state there.
pub struct Told {
    pub ext_deposit: u128,
    pub head: [u8; 32],
    pub account: Option<AccountInfo>,
}

/// What keeps an account that a check was told of from being fit to send, if anything does.
pub open spec fn fault(told: Told) -> Option<PreConditionError> {
    account_fault(told.ext_deposit, told.account)
}

/// The replies to a check that is told of one account after the other.
pub open spec fn replies(told: Seq<Told>) -> Seq<Reply>
    decreases told.len(),
{
    if told.len() == 0 {
        seq![]
    } else {
        replies(told.drop_last()).push(Reply::Deposit(told.last().ext_deposit)).push(
            Reply::Head { hash: told.last().head },
        ).push(Reply::Account(told.last().account))
    }
}

proof fn lemma_run_push(check: PreConditions, past: Seq<Reply>, reply: Reply)
    ensures
        check.run(past.push(reply)) == check.run(past).after(reply).0,
        check.awaits_all(past.push(reply)) == (check.awaits_all(past) && check.run(past).awaits(
            reply,
        )),
        check.answer(past.push(reply)) == check.run(past).after(reply).1,
{
    assert(past.push(reply).drop_last() =~= past);
    assert(past.push(reply).last() == reply);
}

/// The check of one account, told in three replies. Its state is asked for at the finalized head
/// that was answered just before.
proof fn lemma_one_account(check: PreConditions, past: Seq<Reply>, told: Told)
    requires
        check.awaits_all(past),
        check.run(past).phase == Phase::Deposit,
        !check.run(past).para_finality,
    ensures
        ({
            let at = check.run(past);
            let asked = past.push(Reply::Deposit(told.ext_deposit)).push(
                Reply::Head { hash: told.head },
            );
            let next = asked.push(Reply::Account(told.account));
            &&& check.answer(asked) == (Request::Account { index: at.next, at: told.head })
            &&& check.awaits_all(next)
            &&& (check.run(next), check.answer(next)) == match fault(told) {
                None => at.advance(),
                Some(e) => (PreConditions { ext_deposit: told.ext_deposit, ..at }).fail(e),
            }
        }),
{
    let a = past.push(Reply::Deposit(told.ext_deposit));
    let b = a.push(Reply::Head { hash: told.head });
    lemma_run_push(check, past, Reply::Deposit(told.ext_deposit));
    lemma_run_push(check, a, Reply::Head { hash: told.head });
    lemma_run_push(check, b, Reply::Account(told.account));
}

/// Where every account that the check is told of is fit, the check goes on to the account
/// behind them; once it has been told of all, it passes.
pub proof fn law_fit_accounts_pass(
    first: usize,
    end: usize,
    told: Seq<Told>,
)
    requires
        0 < told.len() <= end - first,
        forall|k: int|
            0 <= k < told.len() ==> fault(#[trigger] told[k]).is_none(),
    ensures
        ({
            let check = begin(first, end, false).0;
            &&& check.awaits_all(replies(told))
            &&& (check.run(replies(told)), check.answer(replies(told))) == begin(
                (first + told.len()) as usize,
                end,
                false,
            )
            &&& told.len() == end - first <==> check.answer(replies(told)) == Request::Passed
        }),
    decreases told.len(),
{
    let check = begin(first, end, false).0;
    let before = told.drop_last();
    assert forall|k: int| 0 <= k < before.len() implies fault(
        #[trigger] before[k],
    ).is_none() by {
        assert(before[k] == told[k]);
    }
    if before.len() > 0 {
        law_fit_accounts_pass(first, end, before);
    }
    assert(fault(told[told.len() - 1]).is_none());
    lemma_one_account(check, replies(before), told.last());
}

/// The first account that is not fit ends the check with what is wrong with it, however fit the
/// accounts before it are; those behind it are not asked for.
pub proof fn law_first_unfit_account_fails(
    first: usize,
    end: usize,
    told: Seq<Told>,
    e: PreConditionError,
)
    requires
        0 < told.len() <= end - first,
        forall|k: int|
            0 <= k < told.len() - 1 ==> fault(#[trigger] told[k]).is_none(),
        fault(told.last()) == Some(e),
    ensures
        ({
            let check = begin(first, end, false).0;
            &&& check.awaits_all(replies(told))
            &&& check.answer(replies(told)) == Request::Failed(e)
            &&& check.run(replies(told)).phase == Phase::Over
        }),
{
    let check = begin(first, end, false).0;
    let before = told.drop_last();
    assert forall|k: int| 0 <= k < before.len() implies fault(
        #[trigger] before[k],
    ).is_none() by {
        assert(before[k] == told[k]);
    }
    if before.len() > 0 {
        law_fit_accounts_pass(first, end, before);
    }
    lemma_one_account(check, replies(before), told.last());
}

/// With the finality of a parachain the check asks for the existential deposit of each account
/// and passes, whatever the deposits are: no account is looked at.
pub proof fn law_para_finality_looks_at_no_account(
    first: usize,
    end: usize,
    deposits: Seq<Reply>,
)
    requires
        0 < deposits.len() <= end - first,
        forall|k: int| 0 <= k < deposits.len() ==> #[trigger] deposits[k] is Deposit,
    ensures
        ({
            let check = begin(first, end, true).0;
            &&& check.awaits_all(deposits)
            &&& (check.run(deposits), check.answer(deposits)) == begin(
                (first + deposits.len()) as usize,
                end,
                true,
            )
        }),
    decreases deposits.len(),
{
    let before = deposits.drop_last();
    assert forall|k: int| 0 <= k < before.len() implies #[trigger] before[k] is Deposit by {
        assert(before[k] == deposits[k]);
    }
    if before.len() > 0 {
        law_para_finality_looks_at_no_account(first, end, before);
    }
    let check = begin(first, end, true).0;
    assert(check.awaits_all(before));
    assert(check.run(before) == begin((first + before.len()) as usize, end, true).0);
    assert(deposits[deposits.len() - 1] is Deposit);
}

/// The state of an account is asked for at the finalized head that the node has just named.
pub proof fn law_account_is_asked_for_at_the_finalized_head(check: PreConditions, hash: [u8; 32])
    requires
        check.awaits(Reply::Head { hash }),
    ensures
        check.after(Reply::Head { hash }).1 == (Request::Account { index: check.next, at: hash }),
        check.after(Reply::Head { hash }).0.awaits(Reply::Account(None)),
{
}

/// A failed request ends the check, wherever it has come to, with what the client says of it.
pub proof fn law_failed_request_ends_the_check(check: PreConditions, text: String)
    requires
        check.phase != Phase::Over,
    ensures
        check.awaits(Reply::Failed(text)),
        check.after(Reply::Failed(text)).1 == Request::Failed(PreConditionError::Request(text)),
        check.after(Reply::Failed(text)).0.phase == Phase::Over,
{
}

/// The failure that a check ends with is that of the first request that failed: no reply comes
/// after a failed one.
pub proof fn law_first_failed_request_is_reported(check: PreConditions, told: Seq<Reply>)
    requires
        check.awaits_all(told),
        told.len() > 0,
    ensures
        forall|i: int| 0 <= i < told.len() - 1 ==> !(#[trigger] told[i] is Failed),
        told.last() matches Reply::Failed(text) ==> check.answer(told) == Request::Failed(
            PreConditionError::Request(text),
        ),
    decreases told.len(),
{
    let before = told.drop_last();
    if before.len() > 0 {
        law_first_failed_request_is_reported(check, before);
        assert(!(before.last() is Failed));
        assert forall|i: int| 0 <= i < told.len() - 1 implies !(#[trigger] told[i] is Failed) by {
            assert(told[i] == before[i]);
        }
    }
}

/// An account passes the check only if the chain knows it, its nonce is zero, and it holds the
/// existential deposit and 10% for fees. Of an account that does not, the first of these that
/// fails is reported: every known account with another nonce than zero has a `NonZeroNonce`.
pub proof fn law_only_fresh_and_funded_accounts_are_fit(
    ext_deposit: u128,
    account: Option<AccountInfo>,
)
    ensures
        account_fault(ext_deposit, account).is_none() <==> {
            &&& account matches Some(info)
            &&& info.nonce == 0
            &&& 10 * info.free >= 11 * ext_deposit
        },
        account_fault(ext_deposit, account) == Some(PreConditionError::MissingAccount)
            <==> account.is_none(),
        account matches Some(info) ==> {
            &&& info.nonce != 0 <==> account_fault(ext_deposit, account) == Some(
                PreConditionError::NonZeroNonce,
            )
            &&& info.nonce == 0 && 10 * info.free < 11 * ext_deposit <==> account_fault(
                ext_deposit,
                account,
            ) == Some(PreConditionError::InsufficientFunds)
        },
{
}

/// What the check does once it is told of an account's state, on the state's fields: it goes on
/// to the account with the next index where this one is fresh and funded, and passes where it is
/// the last; it fails otherwise.
pub proof fn law_check_decides_on_the_state(check: PreConditions, account: Option<AccountInfo>)
    requires
        check.phase == Phase::Account,
        check.next < check.end,
    ensures
        ({
            let (later, request) = check.after(Reply::Account(account));
            &&& check.awaits(Reply::Account(account))
            &&& match account {
                None => request == Request::Failed(PreConditionError::MissingAccount),
                Some(info) => {
                    &&& info.nonce != 0 ==> request == Request::Failed(
                        PreConditionError::NonZeroNonce,
                    )
                    &&& info.nonce == 0 && 10 * info.free < 11 * check.ext_deposit ==> request
                        == Request::Failed(PreConditionError::InsufficientFunds)
                    &&& info.nonce == 0 && 10 * info.free >= 11 * check.ext_deposit
                        && check.next + 1 < check.end ==> {
                        &&& request == (Request::Deposit { index: (check.next + 1) as usize })
                        &&& later.next == check.next + 1
                        &&& later.end == check.end
                        &&& later.para_finality == check.para_finality
                        &&& later.phase == Phase::Deposit
                    }
                    &&& info.nonce == 0 && 10 * info.free >= 11 * check.ext_deposit
                        && check.next + 1 == check.end ==> {
                        &&& request == Request::Passed
                        &&& later.phase == Phase::Over
                    }
                },
            }
            &&& request is Failed ==> later.phase == Phase::Over
        }),
{
}

/// What the check does once it is told of the existential deposit: with the finality of a
/// parachain it goes on to the account with the next index or passes, else it keeps the deposit
/// and asks for the finalized head.
pub proof fn law_check_takes_the_deposit(check: PreConditions, ext_deposit: u128)
    requires
        check.phase == Phase::Deposit,
        check.next < check.end,
    ensures
        ({
            let (later, request) = check.after(Reply::Deposit(ext_deposit));
            &&& check.awaits(Reply::Deposit(ext_deposit))
            &&& !check.para_finality ==> {
                &&& request == Request::Head
                &&& later == (PreConditions { phase: Phase::Head, ext_deposit, ..check })
            }
            &&& check.para_finality && check.next + 1 < check.end ==> {
                &&& request == (Request::Deposit { index: (check.next + 1) as usize })
                &&& later == (PreConditions {
                    next: (check.next + 1) as usize,
                    ext_deposit: 0,
                    ..check
                })
            }
            &&& check.para_finality && check.next + 1 == check.end ==> {
                &&& request == Request::Passed
                &&& later.phase == Phase::Over
            }
        }),
{
}

/// A check begins with its first account, and passes at once where there is none.
pub proof fn law_check_begins_with_its_first_account(first: usize, end: usize, para_finality: bool)
    ensures
        ({
            let (check, request) = begin(first, end, para_finality);
            &&& check.wf()
            &&& first < end ==> {
                &&& request == (Request::Deposit { index: first })
                &&& check.phase == Phase::Deposit
                &&& (check.next, check.end, check.para_finality) == (first, end, para_finality)
            }
            &&& first >= end ==> request == Request::Passed && check.phase == Phase::Over
        }),
{
}

/// A request that is answered with the hash of the finalized head leads to one for the account's
/// state there, and changes nothing else.
pub proof fn law_head_leads_to_the_account(check: PreConditions, hash: [u8; 32])
    requires
        check.phase == Phase::Head,
    ensures
        check.awaits(Reply::Head { hash }),
        check.after(Reply::Head { hash }) == (
            PreConditions { phase: Phase::Account, ..check },
            Request::Account { index: check.next, at: hash },
        ),
{
}

/// A check that is told of accounts one after the other goes on past those that are fresh and
/// funded and stops at the first other one. Once it has been told of all of them, it passes.
pub proof fn law_check_reports_the_first_unfit_account(first: usize, end: usize, told: Seq<Told>)
    requires
        0 < told.len() <= end - first,
        forall|k: int|
            0 <= k < told.len() - 1 ==> (#[trigger] told[k].account matches Some(info)
                && info.nonce == 0 && 10 * info.free >= 11 * told[k].ext_deposit),
    ensures
        ({
            let check = begin(first, end, false).0;
            let deposit = told.last().ext_deposit;
            let request = check.answer(replies(told));
            &&& check.awaits_all(replies(told))
            &&& match told.last().account {
                None => request == Request::Failed(PreConditionError::MissingAccount),
                Some(info) => if info.nonce != 0 {
                    request == Request::Failed(PreConditionError::NonZeroNonce)
                } else if 10 * info.free < 11 * deposit {
                    request == Request::Failed(PreConditionError::InsufficientFunds)
                } else if told.len() < end - first {
                    request == (Request::Deposit { index: (first + told.len()) as usize })
                } else {
                    request == Request::Passed
                },
            }
        }),
{
    let before = told.drop_last();
    assert forall|k: int| 0 <= k < told.len() - 1 implies fault(#[trigger] told[k]).is_none() by {
        assert(told[k].account is Some);
    }
    match fault(told.last()) {
        None => {
            assert forall|k: int| 0 <= k < told.len() implies fault(
                #[trigger] told[k],
            ).is_none() by {}
            law_fit_accounts_pass(first, end, told);
        },
        Some(e) => {
            law_first_unfit_account_fails(first, end, told, e);
        },
    }
}

/// Where a check that is told of accounts one after the other passes, every one of them is known
/// to the chain, has a nonce of zero, and holds the existential deposit and 10% for fees, and
/// there are no more of them.
pub proof fn law_passed_accounts_are_fit(first: usize, end: usize, told: Seq<Told>)
    requires
        0 < told.len() <= end - first,
        begin(first, end, false).0.awaits_all(replies(told)),
        begin(first, end, false).0.answer(replies(told)) == Request::Passed,
    ensures
        told.len() == end - first,
        forall|k: int|
            0 <= k < told.len() ==> (#[trigger] told[k].account matches Some(info) && info.nonce
                == 0 && 10 * info.free >= 11 * told[k].ext_deposit),
{
    lemma_all_but_last_fit(first, end, told);
    match fault(told.last()) {
        None => {
            assert forall|k: int| 0 <= k < told.len() implies fault(
                #[trigger] told[k],
            ).is_none() by {
                if k == told.len() - 1 {
                    assert(told[k] == told.last());
                }
            }
            law_fit_accounts_pass(first, end, told);
            assert forall|k: int| 0 <= k < told.len() implies (
            #[trigger] told[k].account matches Some(info) && info.nonce == 0 && 10 * info.free
                >= 11 * told[k].ext_deposit) by {
                assert(fault(told[k]).is_none());
            }
        },
        Some(e) => {
            law_first_unfit_account_fails(first, end, told, e);
        },
    }
}

/// A check is told of an account only after all accounts before it were fit.
proof fn lemma_all_but_last_fit(first: usize, end: usize, told: Seq<Told>)
    requires
        0 < told.len() <= end - first,
        begin(first, end, false).0.awaits_all(replies(told)),
    ensures
        forall|k: int| 0 <= k < told.len() - 1 ==> fault(#[trigger] told[k]).is_none(),
    decreases told.len(),
{
    let check = begin(first, end, false).0;
    let before = told.drop_last();
    let last = told.last();
    let a = replies(before).push(Reply::Deposit(last.ext_deposit));
    let b = a.push(Reply::Head { hash: last.head });
    lemma_run_push(check, b, Reply::Account(last.account));
    lemma_run_push(check, a, Reply::Head { hash: last.head });
    lemma_run_push(check, replies(before), Reply::Deposit(last.ext_deposit));
    assert(check.run(replies(before)).phase == Phase::Deposit);
    if before.len() > 0 {
        lemma_all_but_last_fit(first, end, before);
        match fault(before.last()) {
            None => {},
            Some(e) => {
                law_first_unfit_account_fails(first, end, before, e);
            },
        }
        assert forall|k: int| 0 <= k < told.len() - 1 implies fault(
            #[trigger] told[k],
        ).is_none() by {
            assert(told[k] == before[k]);
            if k == before.len() - 1 {
                assert(before[k] == before.last());
            }
        }
    }
}

/// The digits of a number, read in the decimal system, give back the number. They are digits,
/// and the first is zero for zero alone.
pub proof fn law_decimal_reads_back(n: nat)
    ensures
        decimal(n).fold_left(0int, |v: int, c: char| 10 * v + (c as int - '0' as int)) == n,
        forall|i: int| 0 <= i < decimal(n).len() ==> '0' <= #[trigger] decimal(n)[i] <= '9',
        decimal(n).len() > 0,
        decimal(n)[0] == '0' <==> n == 0,
    decreases n,
{
    let read = |v: int, c: char| 10 * v + (c as int - '0' as int);
    let s = decimal(n);
    reveal_with_fuel(Seq::fold_left, 2);
    if n < 10 {
        assert(s.drop_last() =~= Seq::<char>::empty());
        assert(s.last() == digit(n));
    } else {
        law_decimal_reads_back(n / 10);
        assert(s.drop_last() =~= decimal(n / 10));
        assert(s.last() == digit(n % 10));
        assert(s[0] == decimal(n / 10)[0]);
        assert forall|i: int| 0 <= i < s.len() implies '0' <= #[trigger] s[i] <= '9' by {
            if i < s.len() - 1 {
                assert(s[i] == decimal(n / 10)[i]);
            }
        }
    }
}

/// The secret URI of an account is the derivation path that all accounts share, and behind it
/// the decimal digits of the account's index.
pub proof fn law_uri_is_derivation_and_index(derivation: Seq<char>, j: nat)
    ensures
        derivation.is_prefix_of(uri_of(derivation, j)),
        uri_of(derivation, j).skip(derivation.len() as int).fold_left(
            0int,
            |v: int, c: char| 10 * v + (c as int - '0' as int),
        ) == j,
        forall|i: int|
            derivation.len() <= i < uri_of(derivation, j).len() ==> '0' <= #[trigger] uri_of(
                derivation,
                j,
            )[i] <= '9',
        uri_of(derivation, j).len() > derivation.len(),
        uri_of(derivation, j)[derivation.len() as int] == '0' <==> j == 0,
{
    law_decimal_reads_back(j);
    let uri = uri_of(derivation, j);
    assert(uri.skip(derivation.len() as int) =~= decimal(j));
    assert(uri.subrange(0, derivation.len() as int) =~= derivation);
    assert forall|i: int| derivation.len() <= i < uri.len() implies '0' <= #[trigger] uri[i]
        <= '9' by {
        assert(uri[i] == decimal(j)[i - derivation.len()]);
    }
}

/// Account `j` belongs to the sender whose index is the quotient of `j` and the number of
/// accounts that each sender has. A sender has accounts wherever their indices fit a `usize`.
pub proof fn law_accounts_are_dealt_in_order(i: usize, n: usize, j: usize)
    requires
        i < usize::MAX,
    ensures
        accounts_of(i, n).is_some() <==> i * n + n <= usize::MAX,
        accounts_of(i, n) matches Some((first, end)) ==> {
            &&& first == i * n
            &&& end == i * n + n
            &&& first <= j < end <==> n > 0 && j as int / n as int == i
        },
{
    assert((i + 1) * n == i * n + n) by (nonlinear_arith);
    assert(i * n >= 0) by (nonlinear_arith);
    if n > 0 {
        let q = j as int / n as int;
        lemma_fundamental_div_mod(j as int, n as int);
        if i * n <= j < i * n + n {
            lemma_fundamental_div_mod_converse(j as int, n as int, i as int, j - i * n);
        }
        if q == i {
            assert(n * q == i * n) by (nonlinear_arith)
                requires
                    q == i,
            ;
        }
    }
}

} // verus!
