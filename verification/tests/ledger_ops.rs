//! Bonding, unbonding, rebonding and controller management.

use staking_core::eras::ElectedValidator;
use staking_core::ledger::{StakingLedger, UnlockChunk};
use staking_core::ratio::Ratio;
use staking_core::staking::{era_key, Config, Staking};
use staking_core::types::{Error, IndividualExposure, RewardDestination, ValidatorPrefs};

fn acc(n: u64) -> u64 {
    n
}

fn config() -> Config {
    Config {
        validator_count: 2,
        minimum_validator_count: 1,
        sessions_per_era: 3,
        bonding_duration: 3,
        slash_defer_duration: 0,
        history_depth: 84,
        max_backers_per_validator: 64,
        slash_reward_fraction: Ratio::from_percent(10),
    }
}

fn standard_winners() -> Vec<ElectedValidator> {
    vec![
        ElectedValidator {
            who: acc(11),
            own: 1000,
            backers: vec![IndividualExposure { who: acc(101), value: 125 }],
        },
        ElectedValidator {
            who: acc(21),
            own: 1000,
            backers: vec![IndividualExposure { who: acc(101), value: 375 }],
        },
    ]
}

/// The common genesis: validators 11 (controller 10) and 21 (controller
/// 20) bonded at 1000, validator 31 (controller 30) at 500, nominator 101
/// (controller 100) at 500 voting for 11 and 21.
fn setup() -> Staking {
    let mut s = Staking::new(config());
    s.set_balance(acc(1), 10);
    s.set_balance(acc(2), 20);
    s.set_balance(acc(10), 1);
    s.set_balance(acc(11), 1000);
    s.set_balance(acc(20), 1);
    s.set_balance(acc(21), 2000);
    s.set_balance(acc(30), 1);
    s.set_balance(acc(31), 2000);
    s.set_balance(acc(100), 1);
    s.set_balance(acc(101), 2000);
    s.bond(acc(11), acc(10), 1000, RewardDestination::Staked).unwrap();
    s.validate(acc(10), ValidatorPrefs::default()).unwrap();
    s.bond(acc(21), acc(20), 1000, RewardDestination::Staked).unwrap();
    s.validate(acc(20), ValidatorPrefs::default()).unwrap();
    s.bond(acc(31), acc(30), 500, RewardDestination::Staked).unwrap();
    s.validate(acc(30), ValidatorPrefs::default()).unwrap();
    s.bond(acc(101), acc(100), 500, RewardDestination::Staked).unwrap();
    s.nominate(acc(100), vec![acc(11), acc(21)]).unwrap();
    s
}

fn start_era(s: &mut Staking, era: u32) {
    while s.current_era < era {
        let session = (s.current_era + 1) * s.config.sessions_per_era;
        s.start_era(session, standard_winners());
    }
}

fn ledger_of(s: &Staking, controller: u64) -> StakingLedger {
    s.ledger_of(controller).unwrap().clone()
}

#[test]
fn basic_setup_works() {
    let mut s = setup();
    start_era(&mut s, 1);
    assert_eq!(s.bonded_of(acc(11)), Some(acc(10)));
    assert_eq!(s.bonded_of(acc(21)), Some(acc(20)));
    assert_eq!(s.bonded_of(acc(1)), None);
    let l10 = ledger_of(&s, acc(10));
    assert_eq!(l10.stash, acc(11));
    assert_eq!(l10.total, 1000);
    assert_eq!(l10.active, 1000);
    assert!(l10.unlocking.is_empty());
    assert_eq!(l10.last_reward, None);
    let l20 = ledger_of(&s, acc(20));
    assert_eq!(l20.total, 1000);
    assert!(s.ledger_of(acc(1)).is_none());
    let l100 = ledger_of(&s, acc(100));
    assert_eq!(l100.stash, acc(101));
    assert_eq!(l100.total, 500);
    let noms = s.nominators.get(acc(101) as u128).unwrap();
    assert_eq!(noms.targets, vec![acc(11), acc(21)]);
    let e11 = s.eras_stakers.get(era_key(1, acc(11))).unwrap();
    assert_eq!(e11.total, 1125);
    assert_eq!(e11.own, 1000);
    assert_eq!(e11.others, vec![IndividualExposure { who: acc(101), value: 125 }]);
    let e21 = s.eras_stakers.get(era_key(1, acc(21))).unwrap();
    assert_eq!(e21.total, 1375);
    assert_eq!(e21.own, 1000);
    assert_eq!(e21.others, vec![IndividualExposure { who: acc(101), value: 375 }]);
    assert_eq!(s.eras_total_stake.get(1u128).copied(), Some(2500));
    assert_eq!(s.config.validator_count, 2);
    assert_eq!(s.force_era, staking_core::types::Forcing::NotForcing);
}

#[test]
fn double_staking_should_fail() {
    let mut s = setup();
    // Cannot bond an already-bonded stash again.
    assert_eq!(
        s.bond(acc(11), acc(12), 100, RewardDestination::default()),
        Err(Error::AlreadyBonded)
    );
    // Cannot reuse a controller for another stash.
    s.set_balance(acc(3), 1000);
    assert_eq!(
        s.bond(acc(3), acc(10), 100, RewardDestination::default()),
        Err(Error::AlreadyPaired)
    );
}

#[test]
fn double_controlling_should_fail() {
    let mut s = Staking::new(config());
    s.set_balance(acc(1), 1000);
    s.set_balance(acc(3), 1000);
    assert!(s.bond(acc(1), acc(2), 500, RewardDestination::default()).is_ok());
    assert_eq!(
        s.bond(acc(3), acc(2), 500, RewardDestination::default()),
        Err(Error::AlreadyPaired)
    );
}

#[test]
fn change_controller_works() {
    let mut s = setup();
    assert_eq!(s.bonded_of(acc(11)), Some(acc(10)));
    s.chill(acc(10)).unwrap();
    s.set_controller(acc(11), acc(5)).unwrap();
    start_era(&mut s, 1);
    assert_eq!(
        s.validate(acc(10), ValidatorPrefs::default()),
        Err(Error::NotController)
    );
    s.validate(acc(5), ValidatorPrefs::default()).unwrap();
}

#[test]
fn bond_extra_works() {
    let mut s = setup();
    assert!(s.validators.get(acc(11) as u128).is_some());
    assert_eq!(s.bonded_of(acc(11)), Some(acc(10)));
    let l = ledger_of(&s, acc(10));
    assert_eq!((l.total, l.active), (1000, 1000));
    s.set_balance(acc(11), 1000000);
    s.bond_extra(acc(11), 100).unwrap();
    let l = ledger_of(&s, acc(10));
    assert_eq!((l.total, l.active), (1100, 1100));
    assert!(l.unlocking.is_empty());
    s.bond_extra(acc(11), u128::MAX).unwrap();
    let l = ledger_of(&s, acc(10));
    assert_eq!((l.total, l.active), (1000000, 1000000));
}

#[test]
fn too_many_unbond_calls_should_not_work() {
    let mut s = setup();
    // Fill all but one chunk slot while the target era is 3.
    for _ in 0..31 {
        s.unbond(acc(10), 1).unwrap();
    }
    start_era(&mut s, 1);
    // The last slot fills with a chunk unlocking one era later.
    s.unbond(acc(10), 1).unwrap();
    assert_eq!(s.unbond(acc(10), 1), Err(Error::NoMoreChunks));
    start_era(&mut s, 3);
    assert_eq!(s.unbond(acc(10), 1), Err(Error::NoMoreChunks));
    // Withdrawing the matured chunks frees the slots.
    s.withdraw_unbonded(acc(10)).unwrap();
    s.unbond(acc(10), 1).unwrap();
    assert_eq!(ledger_of(&s, acc(10)).unlocking.len(), 2);
}

#[test]
fn rebond_works() {
    let mut s = setup();
    s.set_payee(acc(10), RewardDestination::Controller).unwrap();
    s.set_balance(acc(11), 1000000);
    start_era(&mut s, 1);
    let l = ledger_of(&s, acc(10));
    assert_eq!((l.stash, l.total, l.active), (acc(11), 1000, 1000));
    start_era(&mut s, 2);
    assert_eq!(s.current_era, 2);
    // Nothing is unbonding yet.
    assert_eq!(s.rebond(acc(10), 500), Err(Error::NoUnlockChunk));
    s.unbond(acc(10), 900).unwrap();
    let l = ledger_of(&s, acc(10));
    assert_eq!((l.total, l.active), (1000, 100));
    assert_eq!(l.unlocking, vec![UnlockChunk { value: 900, era: 2 + 3 }]);
    // Re-bond all the funds unbonded.
    s.rebond(acc(10), 900).unwrap();
    let l = ledger_of(&s, acc(10));
    assert_eq!((l.total, l.active), (1000, 1000));
    assert!(l.unlocking.is_empty());
    s.unbond(acc(10), 900).unwrap();
    // Re-bond part of the funds unbonded.
    s.rebond(acc(10), 500).unwrap();
    let l = ledger_of(&s, acc(10));
    assert_eq!((l.total, l.active), (1000, 600));
    assert_eq!(l.unlocking, vec![UnlockChunk { value: 400, era: 5 }]);
    // Re-bond the remainder of the funds unbonded.
    s.rebond(acc(10), 500).unwrap();
    let l = ledger_of(&s, acc(10));
    assert_eq!((l.total, l.active), (1000, 1000));
    assert!(l.unlocking.is_empty());
    // Unbond parts of the funds in stash.
    s.unbond(acc(10), 300).unwrap();
    s.unbond(acc(10), 300).unwrap();
    s.unbond(acc(10), 300).unwrap();
    let l = ledger_of(&s, acc(10));
    assert_eq!((l.total, l.active), (1000, 100));
    assert_eq!(
        l.unlocking,
        vec![
            UnlockChunk { value: 300, era: 5 },
            UnlockChunk { value: 300, era: 5 },
            UnlockChunk { value: 300, era: 5 },
        ]
    );
    // Re-bond part of the funds unbonded.
    s.rebond(acc(10), 500).unwrap();
    let l = ledger_of(&s, acc(10));
    assert_eq!((l.total, l.active), (1000, 600));
    assert_eq!(
        l.unlocking,
        vec![
            UnlockChunk { value: 300, era: 5 },
            UnlockChunk { value: 100, era: 5 },
        ]
    );
}

#[test]
fn rebond_is_fifo() {
    // Rebond unwinds the most recent unbond operations first.
    let mut s = setup();
    s.set_payee(acc(10), RewardDestination::Controller).unwrap();
    s.set_balance(acc(11), 1000000);
    start_era(&mut s, 1);
    start_era(&mut s, 2);
    s.unbond(acc(10), 400).unwrap();
    assert_eq!(
        ledger_of(&s, acc(10)).unlocking,
        vec![UnlockChunk { value: 400, era: 2 + 3 }]
    );
    start_era(&mut s, 3);
    s.unbond(acc(10), 300).unwrap();
    assert_eq!(
        ledger_of(&s, acc(10)).unlocking,
        vec![
            UnlockChunk { value: 400, era: 2 + 3 },
            UnlockChunk { value: 300, era: 3 + 3 },
        ]
    );
    start_era(&mut s, 4);
    s.unbond(acc(10), 200).unwrap();
    assert_eq!(
        ledger_of(&s, acc(10)).unlocking,
        vec![
            UnlockChunk { value: 400, era: 2 + 3 },
            UnlockChunk { value: 300, era: 3 + 3 },
            UnlockChunk { value: 200, era: 4 + 3 },
        ]
    );
    // Re-bond half of the unbonding funds.
    s.rebond(acc(10), 400).unwrap();
    let l = ledger_of(&s, acc(10));
    assert_eq!((l.total, l.active), (1000, 500));
    assert_eq!(
        l.unlocking,
        vec![
            UnlockChunk { value: 400, era: 2 + 3 },
            UnlockChunk { value: 100, era: 3 + 3 },
        ]
    );
}

#[test]
fn bond_extra_and_withdraw_unbonded_works() {
    let mut s = setup();
    s.set_payee(acc(10), RewardDestination::Controller).unwrap();
    s.set_balance(acc(11), 1000000);
    assert_eq!(s.current_era, 0);
    start_era(&mut s, 1);
    let l = ledger_of(&s, acc(10));
    assert_eq!((l.total, l.active), (1000, 1000));
    s.bond_extra(acc(11), 100).unwrap();
    let l = ledger_of(&s, acc(10));
    assert_eq!((l.total, l.active), (1100, 1100));
    // The recorded exposure is a snapshot: only the next era sees it.
    assert_eq!(s.eras_stakers.get(era_key(1, acc(11))).unwrap().own, 1000);
    let mut winners = standard_winners();
    winners[0].own = 1100;
    s.start_era(6, winners);
    assert_eq!(s.current_era, 2);
    assert_eq!(s.eras_stakers.get(era_key(2, acc(11))).unwrap().own, 1100);
    s.unbond(acc(10), 1000).unwrap();
    let l = ledger_of(&s, acc(10));
    assert_eq!((l.total, l.active), (1100, 100));
    assert_eq!(l.unlocking, vec![UnlockChunk { value: 1000, era: 2 + 3 }]);
    // Nothing can be withdrawn before the chunk's era arrives.
    s.withdraw_unbonded(acc(10)).unwrap();
    let l = ledger_of(&s, acc(10));
    assert_eq!(l.total, 1100);
    start_era(&mut s, 3);
    s.withdraw_unbonded(acc(10)).unwrap();
    let l = ledger_of(&s, acc(10));
    assert_eq!(l.total, 1100);
    start_era(&mut s, 5);
    s.withdraw_unbonded(acc(10)).unwrap();
    let l = ledger_of(&s, acc(10));
    assert_eq!((l.total, l.active), (100, 100));
    assert!(l.unlocking.is_empty());
}

#[test]
fn unbonded_balance_is_not_slashable() {
    let mut s = setup();
    assert_eq!(s.slashable_balance_of(acc(11)), 1000);
    s.unbond(acc(10), 800).unwrap();
    assert_eq!(s.slashable_balance_of(acc(11)), 200);
}

#[test]
fn should_initialize_stakers_and_validators() {
    let s = setup();
    assert_eq!(s.bonded_of(acc(11)), Some(acc(10)));
    assert_eq!(s.bonded_of(acc(21)), Some(acc(20)));
    assert_eq!(s.bonded_of(acc(1)), None);
    let l10 = ledger_of(&s, acc(10));
    assert_eq!((l10.stash, l10.total, l10.active), (acc(11), 1000, 1000));
    assert_eq!(l10.last_reward, None);
    let l20 = ledger_of(&s, acc(20));
    assert_eq!((l20.stash, l20.total, l20.active), (acc(21), 1000, 1000));
    assert!(s.ledger_of(acc(1)).is_none());
}

#[test]
fn on_free_balance_zero_stash_removes_validator() {
    // Once a validator's stash is drained, reaping it tears down every
    // record hanging off the stash.
    let mut s = setup();
    start_era(&mut s, 1);
    assert!(s.validators.get(acc(11) as u128).is_some());
    s.set_balance(acc(11), 0);
    s.reap_stash(acc(11)).unwrap();
    assert_eq!(s.bonded_of(acc(11)), None);
    assert!(s.ledger_of(acc(10)).is_none());
    assert!(s.validators.get(acc(11) as u128).is_none());
    assert!(s.payee.get(acc(11) as u128).is_none());
}

#[test]
fn on_free_balance_zero_stash_removes_nominator() {
    let mut s = setup();
    start_era(&mut s, 1);
    assert!(s.nominators.get(acc(101) as u128).is_some());
    s.set_balance(acc(101), 0);
    s.reap_stash(acc(101)).unwrap();
    assert_eq!(s.bonded_of(acc(101)), None);
    assert!(s.ledger_of(acc(100)).is_none());
    assert!(s.nominators.get(acc(101) as u128).is_none());
}

#[test]
fn reap_requires_a_drained_stash() {
    let mut s = setup();
    assert_eq!(s.reap_stash(acc(11)), Err(Error::FundedTarget));
    s.set_balance(acc(11), 0);
    assert!(s.reap_stash(acc(11)).is_ok());
    s.set_balance(acc(3), 0);
    assert_eq!(s.reap_stash(acc(3)), Err(Error::NotStash));
}

#[test]
fn force_unstake_works() {
    let mut s = setup();
    assert_eq!(s.bonded_of(acc(11)), Some(acc(10)));
    s.force_unstake(acc(11)).unwrap();
    assert_eq!(s.bonded_of(acc(11)), None);
    assert!(s.ledger_of(acc(10)).is_none());
    assert_eq!(s.force_unstake(acc(11)), Err(Error::NotStash));
}
