//! Whether an account holds enough to send transactions.
use vstd::prelude::*;

verus! {

/// Whether a free balance is below the existential deposit and 10% for fees.
pub open spec fn insufficient(free: nat, ext_deposit: nat) -> bool {
    10 * free < 11 * ext_deposit
}

/// Returns whether the free balance is below the existential deposit and 10% for fees.
pub fn has_insufficient_funds(free: u128, ext_deposit: u128) -> (res: bool)
    ensures
        res == insufficient(free as nat, ext_deposit as nat),
{
    // A tenth of the deposit, rounded up.
    let fees: u128 = if ext_deposit % 10 == 0 {
        ext_deposit / 10
    } else {
        ext_deposit / 10 + 1
    };
    free < ext_deposit || free - ext_deposit < fees
}

/// A larger balance never fails where a smaller one passes.
pub proof fn law_more_funds_stay_sufficient(free: nat, more: nat, ext_deposit: nat)
    requires
        free <= more,
        !insufficient(free, ext_deposit),
    ensures
        !insufficient(more, ext_deposit),
{
}

/// A smaller deposit never fails an account that passes for a larger one.
pub proof fn law_smaller_deposit_stays_covered(free: nat, ext_deposit: nat, smaller: nat)
    requires
        smaller <= ext_deposit,
        !insufficient(free, ext_deposit),
    ensures
        !insufficient(free, smaller),
{
}

/// An account that holds no more than the existential deposit, and so nothing for fees, does not
/// pass.
pub proof fn law_bare_deposit_is_insufficient(free: nat, ext_deposit: nat)
    requires
        0 < ext_deposit,
        free <= ext_deposit,
    ensures
        insufficient(free, ext_deposit),
{
}

/// An account passes where what it holds beyond the existential deposit is at least 10% of it,
/// and nowhere else.
pub proof fn law_deposit_and_fees_suffice(ext_deposit: nat, fees: nat)
    ensures
        !insufficient(ext_deposit + fees, ext_deposit) <==> 10 * fees >= ext_deposit,
{
}

} // verus!
