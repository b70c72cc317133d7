//! Reward payouts: destinations, commission, claim windows and
//! double-claim rejection.

use staking_core::eras::ElectedValidator;
use staking_core::ratio::Ratio;
use staking_core::staking::{era_key, Config, Staking};
use staking_core::types::{Error, IndividualExposure, RewardDestination, ValidatorPrefs};

fn acc(n: u64) -> u64 {
    n
}

fn config() -> Config {
    Config {
        validator_count: 2,
        minimum_validator_count: 1,
        sessions_per_era: 3,
        bonding_duration: 3,
        slash_defer_duration: 0,
        history_depth: 84,
        max_backers_per_validator: 64,
        slash_reward_fraction: Ratio::from_percent(10),
    }
}

fn standard_winners() -> Vec<ElectedValidator> {
    vec![
        ElectedValidator {
            who: acc(11),
            own: 1000,
            backers: vec![IndividualExposure { who: acc(101), value: 125 }],
        },
        ElectedValidator {
            who: acc(21),
            own: 1000,
            backers: vec![IndividualExposure { who: acc(101), value: 375 }],
        },
    ]
}

fn setup() -> Staking {
    let mut s = Staking::new(config());
    s.set_balance(acc(10), 1);
    s.set_balance(acc(11), 1000);
    s.set_balance(acc(20), 1);
    s.set_balance(acc(21), 2000);
    s.set_balance(acc(100), 1);
    s.set_balance(acc(101), 2000);
    s.bond(acc(11), acc(10), 1000, RewardDestination::Staked).unwrap();
    s.validate(acc(10), ValidatorPrefs::default()).unwrap();
    s.bond(acc(21), acc(20), 1000, RewardDestination::Staked).unwrap();
    s.validate(acc(20), ValidatorPrefs::default()).unwrap();
    s.bond(acc(101), acc(100), 500, RewardDestination::Staked).unwrap();
    s.nominate(acc(100), vec![acc(11), acc(21)]).unwrap();
    s
}

fn start_era(s: &mut Staking, era: u32) {
    while s.current_era < era {
        let session = (s.current_era + 1) * s.config.sessions_per_era;
        s.start_era(session, standard_winners());
    }
}

/// The exact floored parts-per-billion share a claimant gets.
fn share(amount: u128, num: u128, den: u128) -> u128 {
    let parts = Ratio::from_rational(num, den).parts() as u128;
    amount / 1_000_000_000 * parts + amount % 1_000_000_000 * parts / 1_000_000_000
}

#[test]
fn reward_destination_works() {
    let mut s = setup();
    s.reward_by_ids(vec![(acc(11), 1)]);
    let total_payout_0: u128 = 3000;
    start_era(&mut s, 1);
    // Staked is the default destination: the reward compounds.
    s.payout_validator(acc(10), 0, total_payout_0).unwrap();
    // Era zero had no exposure snapshot, so only the points share is
    // computed against an empty exposure; the whole payout was the
    // validator's by points, but with no recorded exposure only the
    // commission part (zero) lands.  Claim a snapshotted era instead.
    s.reward_by_ids(vec![(acc(11), 1)]);
    let total_payout_1: u128 = 3000;
    start_era(&mut s, 2);
    let before = s.free_balance_of(acc(11));
    let l_before = s.ledger_of(acc(10)).unwrap().clone();
    s.payout_validator(acc(10), 1, total_payout_1).unwrap();
    let expected = share(total_payout_1, 1000, 1125);
    assert_eq!(s.free_balance_of(acc(11)), before + expected);
    let l = s.ledger_of(acc(10)).unwrap();
    assert_eq!(l.total, l_before.total + expected);
    assert_eq!(l.active, l_before.active + expected);
    assert_eq!(l.last_reward, Some(1));
    // Stash: paid out without bonding.
    s.set_payee(acc(10), RewardDestination::Stash).unwrap();
    s.reward_by_ids(vec![(acc(11), 1)]);
    start_era(&mut s, 3);
    let before = s.free_balance_of(acc(11));
    let l_before = s.ledger_of(acc(10)).unwrap().clone();
    s.payout_validator(acc(10), 2, total_payout_1).unwrap();
    assert_eq!(s.free_balance_of(acc(11)), before + expected);
    let l = s.ledger_of(acc(10)).unwrap();
    assert_eq!(l.total, l_before.total);
    // Controller: paid to the controller account.
    s.set_payee(acc(10), RewardDestination::Controller).unwrap();
    s.reward_by_ids(vec![(acc(11), 1)]);
    start_era(&mut s, 4);
    let stash_before = s.free_balance_of(acc(11));
    let controller_before = s.free_balance_of(acc(10));
    s.payout_validator(acc(10), 3, total_payout_1).unwrap();
    assert_eq!(s.free_balance_of(acc(11)), stash_before);
    assert_eq!(s.free_balance_of(acc(10)), controller_before + expected);
}

#[test]
fn validator_payment_prefs_work() {
    let mut s = setup();
    // Validator 11 takes a 40% commission from era 1 on.
    s.validate(acc(10), ValidatorPrefs { commission: Ratio::from_percent(40) }).unwrap();
    start_era(&mut s, 1);
    s.set_payee(acc(10), RewardDestination::Controller).unwrap();
    s.set_payee(acc(100), RewardDestination::Controller).unwrap();
    s.reward_by_ids(vec![(acc(11), 1)]);
    let total_payout: u128 = 3000;
    start_era(&mut s, 2);
    let c10_before = s.free_balance_of(acc(10));
    let c100_before = s.free_balance_of(acc(100));
    s.payout_validator(acc(10), 1, total_payout).unwrap();
    s.payout_nominator(acc(100), 1, vec![(acc(11), 0)], total_payout).unwrap();
    let taken_cut = share(total_payout, 40, 100);
    let shared_cut = total_payout - taken_cut;
    let reward_of_10 = share(shared_cut, 1000, 1125) + taken_cut;
    let reward_of_100 = share(shared_cut, 125, 1125);
    assert_eq!(s.free_balance_of(acc(10)), c10_before + reward_of_10);
    assert_eq!(s.free_balance_of(acc(100)), c100_before + reward_of_100);
}

#[test]
fn claim_reward_at_the_last_era_and_no_double_claim_and_invalid_claim() {
    let mut s = setup();
    s.set_payee(acc(10), RewardDestination::Controller).unwrap();
    s.set_payee(acc(100), RewardDestination::Controller).unwrap();
    let total_payout: u128 = 3000;
    s.reward_by_ids(vec![(acc(11), 1)]);
    start_era(&mut s, 1);
    s.reward_by_ids(vec![(acc(11), 1)]);
    start_era(&mut s, 2);
    s.reward_by_ids(vec![(acc(11), 1)]);
    let depth = s.config.history_depth;
    start_era(&mut s, depth + 1);
    let active_era = s.current_era;
    assert_eq!(active_era - s.config.history_depth, 1);
    // Era zero is out of the claim window.
    assert_eq!(
        s.payout_validator(acc(10), 0, total_payout),
        Err(Error::InvalidEraToReward)
    );
    // Eras inside the window can each be claimed once, in order.
    s.payout_validator(acc(10), 1, total_payout).unwrap();
    s.payout_validator(acc(10), 2, total_payout).unwrap();
    assert_eq!(
        s.payout_validator(acc(10), 2, total_payout),
        Err(Error::InvalidEraToReward)
    );
    // The running era cannot be claimed yet.
    assert_eq!(
        s.payout_validator(acc(10), active_era, total_payout),
        Err(Error::InvalidEraToReward)
    );
    // The backer side mirrors the same window and claim-once rule.
    assert_eq!(
        s.payout_nominator(acc(100), 0, vec![(acc(11), 0)], total_payout),
        Err(Error::InvalidEraToReward)
    );
    s.payout_nominator(acc(100), 1, vec![(acc(11), 0)], total_payout).unwrap();
    s.payout_nominator(acc(100), 2, vec![(acc(11), 0)], total_payout).unwrap();
    assert_eq!(
        s.payout_nominator(acc(100), 2, vec![(acc(11), 0)], total_payout),
        Err(Error::InvalidEraToReward)
    );
    assert_eq!(
        s.payout_nominator(acc(100), active_era, vec![(acc(11), 0)], total_payout),
        Err(Error::InvalidEraToReward)
    );
}

#[test]
fn double_claim_rejected_and_first_succeeds() {
    let mut s = setup();
    s.set_payee(acc(10), RewardDestination::Controller).unwrap();
    s.reward_by_ids(vec![(acc(11), 1)]);
    start_era(&mut s, 1);
    start_era(&mut s, 2);
    assert!(s.payout_validator(acc(10), 1, 3000).is_ok());
    assert_eq!(s.payout_validator(acc(10), 1, 3000), Err(Error::InvalidEraToReward));
}

#[test]
fn payouts_never_exceed_the_era_payout() {
    // Validator and backer claims together stay within the era payout:
    // floored splits only lose dust.
    let mut s = setup();
    s.set_payee(acc(10), RewardDestination::Controller).unwrap();
    s.set_payee(acc(20), RewardDestination::Controller).unwrap();
    s.set_payee(acc(100), RewardDestination::Controller).unwrap();
    s.validate(acc(10), ValidatorPrefs { commission: Ratio::from_percent(7) }).unwrap();
    start_era(&mut s, 1);
    s.reward_by_ids(vec![(acc(11), 2), (acc(21), 1)]);
    start_era(&mut s, 2);
    let total_payout: u128 = 999_999_999;
    let before = s.free_balance_of(acc(10)) + s.free_balance_of(acc(20))
        + s.free_balance_of(acc(100));
    s.payout_validator(acc(10), 1, total_payout).unwrap();
    s.payout_validator(acc(20), 1, total_payout).unwrap();
    s.payout_nominator(acc(100), 1, vec![(acc(11), 0), (acc(21), 0)], total_payout).unwrap();
    let after = s.free_balance_of(acc(10)) + s.free_balance_of(acc(20))
        + s.free_balance_of(acc(100));
    assert!(after - before <= total_payout);
    assert!(after > before);
}

#[test]
fn clipped_backers_share_only_within_the_cap() {
    // Only the largest backers, up to the configured cap, are recorded
    // and rewarded; a clipped-out backer's claim pays nothing.
    let mut cfg = config();
    cfg.max_backers_per_validator = 2;
    let mut s = Staking::new(cfg);
    s.set_balance(acc(10), 1);
    s.set_balance(acc(11), 1000);
    for i in 0..3u64 {
        s.set_balance(acc(200 + i), 1000);
        s.set_balance(acc(300 + i), 1);
        s.bond(acc(200 + i), acc(300 + i), 100 + i as u128, RewardDestination::Controller)
            .unwrap();
        s.nominate(acc(300 + i), vec![acc(11)]).unwrap();
    }
    s.bond(acc(11), acc(10), 1000, RewardDestination::Controller).unwrap();
    s.validate(acc(10), ValidatorPrefs::default()).unwrap();
    s.start_era(
        3,
        vec![ElectedValidator {
            who: acc(11),
            own: 1000,
            backers: vec![
                IndividualExposure { who: acc(200), value: 100 },
                IndividualExposure { who: acc(201), value: 101 },
                IndividualExposure { who: acc(202), value: 102 },
            ],
        }],
    );
    let e = s.eras_stakers_clipped.get(era_key(1, acc(11))).unwrap();
    assert_eq!(e.others.len(), 2);
    assert_eq!(e.others[0].who, acc(202));
    assert_eq!(e.others[1].who, acc(201));
    // The full exposure still counts everyone.
    assert_eq!(e.total, 1000 + 100 + 101 + 102);
    s.reward_by_ids(vec![(acc(11), 1)]);
    start_era(&mut s, 2);
    // The clipped-out backer's claim succeeds but pays nothing.
    let before = s.free_balance_of(acc(300));
    s.payout_nominator(acc(300), 1, vec![(acc(11), 0)], 3000).unwrap();
    assert_eq!(s.free_balance_of(acc(300)), before);
    // A recorded backer is paid for its position.
    let before = s.free_balance_of(acc(301));
    s.payout_nominator(acc(301), 1, vec![(acc(11), 1)], 3000).unwrap();
    assert!(s.free_balance_of(acc(301)) > before);
}
