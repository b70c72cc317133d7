//! The account balance breakdown and the fixed-point fraction arithmetic.

use staking_core::ratio::Ratio;
use staking_core::{AccountData, Memo, Reasons};

#[test]
fn usable_subtracts_the_matching_frozen_floor() {
    let a = AccountData { free: 100, reserved: 40, misc_frozen: 30, fee_frozen: 10 };
    assert_eq!(a.usable(Reasons::Misc), 70);
    assert_eq!(a.usable(Reasons::Fee), 90);
    assert_eq!(a.usable(Reasons::All), 70);
}

#[test]
fn usable_saturates_at_zero() {
    let a = AccountData { free: 5, reserved: 0, misc_frozen: 30, fee_frozen: 10 };
    assert_eq!(a.usable(Reasons::All), 0);
}

#[test]
fn frozen_picks_the_larger_floor_for_all() {
    let a = AccountData { free: 0, reserved: 0, misc_frozen: 30, fee_frozen: 45 };
    assert_eq!(a.frozen(Reasons::Misc), 30);
    assert_eq!(a.frozen(Reasons::Fee), 45);
    assert_eq!(a.frozen(Reasons::All), 45);
}

#[test]
fn total_adds_free_and_reserved_saturating() {
    let a = AccountData { free: 100, reserved: 40, misc_frozen: 0, fee_frozen: 0 };
    assert_eq!(a.total(), 140);
    let b = AccountData { free: u128::MAX, reserved: 40, misc_frozen: 0, fee_frozen: 0 };
    assert_eq!(b.total(), u128::MAX);
}

#[test]
fn reasons_combine_widens_on_difference() {
    assert_eq!(Reasons::Fee.combine(Reasons::Fee), Reasons::Fee);
    assert_eq!(Reasons::Misc.combine(Reasons::Misc), Reasons::Misc);
    assert_eq!(Reasons::Fee.combine(Reasons::Misc), Reasons::All);
    assert_eq!(Reasons::All.combine(Reasons::Fee), Reasons::All);
}

#[test]
fn memo_defaults_to_zeroes() {
    assert_eq!(Memo::default(), Memo([0u8; 32]));
}

#[test]
fn ratio_from_rational_floors_exactly() {
    assert_eq!(Ratio::from_rational(1000, 1125).parts(), 888_888_888);
    assert_eq!(Ratio::from_rational(125, 1125).parts(), 111_111_111);
    assert_eq!(Ratio::from_rational(1, 2).parts(), 500_000_000);
    assert_eq!(Ratio::from_rational(1, 3).parts(), 333_333_333);
    assert_eq!(Ratio::from_rational(5, 5).parts(), 1_000_000_000);
    assert_eq!(Ratio::from_rational(7, 5).parts(), 1_000_000_000);
    assert_eq!(Ratio::from_rational(3, 0).parts(), 0);
    assert_eq!(Ratio::from_rational(0, 9).parts(), 0);
}

#[test]
fn ratio_multiplication_is_exact_floor() {
    assert_eq!(Ratio::from_percent(50).mul_balance(1000), 500);
    assert_eq!(Ratio::from_percent(10).mul_balance(562), 56);
    assert_eq!(Ratio::from_percent(25).mul_balance(1000), 250);
    assert_eq!(Ratio::from_rational(1, 3).mul_balance(10), 3);
    // Huge balances do not overflow.
    assert_eq!(Ratio::from_percent(100).mul_balance(u128::MAX), u128::MAX);
    let half = Ratio::from_percent(50).mul_balance(u128::MAX);
    assert_eq!(half, u128::MAX / 2);
}

#[test]
fn ratio_of_giant_balances_is_still_exact() {
    // Denominators beyond 64 bits take the long-division path.
    let den = u128::MAX;
    let num = u128::MAX / 4;
    assert_eq!(Ratio::from_rational(num, den).parts(), 249_999_999);
    assert_eq!(Ratio::from_rational(1, u128::MAX).parts(), 0);
}
