use sender::funds::has_insufficient_funds;

/// `10 * free < 11 * deposit` for amounts whose elevenfold is a `u128`.
fn reference(free: u128, ext_deposit: u128) -> bool {
    10 * free < 11 * ext_deposit
}

#[test]
fn bare_deposit_is_insufficient() {
    assert!(has_insufficient_funds(10_000_000_000, 10_000_000_000));
    assert!(has_insufficient_funds(0, 1));
    assert!(has_insufficient_funds(1, 1));
    assert!(has_insufficient_funds(u128::MAX, u128::MAX));
}

#[test]
fn deposit_and_a_tenth_is_sufficient() {
    assert!(!has_insufficient_funds(0, 0));
    assert!(!has_insufficient_funds(2, 1));
    assert!(!has_insufficient_funds(11, 10));
    assert!(has_insufficient_funds(10, 10));
    assert!(!has_insufficient_funds(11_000_000_000, 10_000_000_000));
    assert!(has_insufficient_funds(10_999_999_999, 10_000_000_000));
    assert!(!has_insufficient_funds(366_666_667, 333_333_333));
    assert!(has_insufficient_funds(366_666_666, 333_333_333));
}

#[test]
fn a_tenth_is_exact() {
    for deposit in 0..3000u128 {
        for near in 0..5u128 {
            let free = (deposit * 11 / 10 + near).saturating_sub(2);
            assert_eq!(has_insufficient_funds(free, deposit), reference(free, deposit));
        }
    }
}

#[test]
fn the_largest_amounts_do_not_overflow() {
    // The largest deposit that a balance can still cover with its tenth.
    let covered = u128::MAX / 11 * 10 + u128::MAX % 11 * 10 / 11;
    assert!(!has_insufficient_funds(u128::MAX, covered));
    assert!(has_insufficient_funds(u128::MAX, covered + 1));
    assert!(has_insufficient_funds(u128::MAX / 2, u128::MAX));
    assert!(!has_insufficient_funds(u128::MAX, 0));
}

#[test]
fn funds_of_pseudo_random_amounts() {
    let mut state = 0x2545_f491_4f6c_dd1du64;
    let mut draw = || {
        state ^= state << 13;
        state ^= state >> 7;
        state ^= state << 17;
        state
    };
    for _ in 0..200_000 {
        let deposit = (((draw() as u128) << 64) | draw() as u128) >> (4 + draw() % 124);
        let other = (((draw() as u128) << 64) | draw() as u128) >> (4 + draw() % 124);
        assert_eq!(has_insufficient_funds(other, deposit), reference(other, deposit));
        let near = deposit + deposit / 10;
        for free in [near, near + 1, near.saturating_sub(1)] {
            assert_eq!(has_insufficient_funds(free, deposit), reference(free, deposit));
        }
    }
}

#[test]
fn more_funds_stay_sufficient() {
    for more in 1_100_000..1_100_400u128 {
        assert!(!has_insufficient_funds(more, 1_000_000));
    }
}

#[test]
fn smaller_deposits_stay_covered() {
    assert!(!has_insufficient_funds(1_100_000, 1_000_000));
    for smaller in [0u128, 1, 999, 500_000, 999_999] {
        assert!(!has_insufficient_funds(1_100_000, smaller));
    }
}

#[test]
fn deposit_and_fees_suffice() {
    for deposit in [1u128, 9, 100, 999_999_937, 10_000_000_000, 1 << 100] {
        let fees = (deposit + 9) / 10;
        assert!(!has_insufficient_funds(deposit + fees, deposit));
        assert!(has_insufficient_funds(deposit + fees - 1, deposit));
    }
}
