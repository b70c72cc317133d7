//! Offence reports: span accounting, reporter rewards, deferral and
//! garbage collection.

use staking_core::eras::ElectedValidator;
use staking_core::offence::OffenceReport;
use staking_core::ratio::Ratio;
use staking_core::slashing::SlashingSpan;
use staking_core::staking::{era_key, span_key, Config, Staking};
use staking_core::types::{Error, Exposure, Forcing, IndividualExposure, RewardDestination,
    ValidatorPrefs};

fn acc(n: u64) -> u64 {
    n
}

fn config_with_defer(defer: u32) -> Config {
    Config {
        validator_count: 2,
        minimum_validator_count: 1,
        sessions_per_era: 3,
        bonding_duration: 3,
        slash_defer_duration: defer,
        history_depth: 84,
        max_backers_per_validator: 64,
        slash_reward_fraction: Ratio::from_percent(10),
    }
}

fn standard_winners() -> Vec<ElectedValidator> {
    vec![
        ElectedValidator {
            who: acc(11),
            own: 1000,
            backers: vec![IndividualExposure { who: acc(101), value: 125 }],
        },
        ElectedValidator {
            who: acc(21),
            own: 1000,
            backers: vec![IndividualExposure { who: acc(101), value: 375 }],
        },
    ]
}

fn setup_with_defer(defer: u32) -> Staking {
    let mut s = Staking::new(config_with_defer(defer));
    s.set_balance(acc(1), 10);
    s.set_balance(acc(2), 20);
    s.set_balance(acc(10), 1);
    s.set_balance(acc(11), 1000);
    s.set_balance(acc(20), 1);
    s.set_balance(acc(21), 2000);
    s.set_balance(acc(100), 1);
    s.set_balance(acc(101), 2000);
    s.bond(acc(11), acc(10), 1000, RewardDestination::Staked).unwrap();
    s.validate(acc(10), ValidatorPrefs::default()).unwrap();
    s.bond(acc(21), acc(20), 1000, RewardDestination::Staked).unwrap();
    s.validate(acc(20), ValidatorPrefs::default()).unwrap();
    s.bond(acc(101), acc(100), 500, RewardDestination::Staked).unwrap();
    s.nominate(acc(100), vec![acc(11), acc(21)]).unwrap();
    s.start_era(3, standard_winners());
    s
}

fn setup() -> Staking {
    setup_with_defer(0)
}

fn start_era(s: &mut Staking, era: u32) {
    while s.current_era < era {
        let session = (s.current_era + 1) * s.config.sessions_per_era;
        s.start_era(session, standard_winners());
    }
}

fn exposure_of(s: &Staking, era: u32, v: u64) -> Exposure {
    s.eras_stakers.get(era_key(era, v)).unwrap().clone()
}

fn on_offence_now(s: &mut Staking, v: u64, exposure: Exposure, reporters: Vec<u64>, percent: u32) {
    let era = s.current_era;
    on_offence_in_era(s, v, exposure, reporters, percent, era);
}

fn on_offence_in_era(
    s: &mut Staking,
    v: u64,
    exposure: Exposure,
    reporters: Vec<u64>,
    percent: u32,
    era: u32,
) {
    s.on_offence(
        vec![OffenceReport { offender: v, exposure, reporters }],
        vec![Ratio::from_percent(percent)],
        era,
    );
}

#[test]
fn offence_forces_new_era() {
    let mut s = setup();
    let e = exposure_of(&s, 1, acc(11));
    on_offence_now(&mut s, acc(11), e, vec![], 5);
    assert_eq!(s.force_era, Forcing::ForceNew);
}

#[test]
fn offence_ensures_new_era_without_clobbering() {
    let mut s = setup();
    s.force_new_era_always();
    let e = exposure_of(&s, 1, acc(11));
    on_offence_now(&mut s, acc(11), e, vec![], 5);
    assert_eq!(s.force_era, Forcing::ForceAlways);
}

#[test]
fn slashing_performed_according_exposure() {
    // The slash follows the historical exposure handed in with the
    // report, not the current stake.
    let mut s = setup();
    assert_eq!(exposure_of(&s, 1, acc(11)).own, 1000);
    on_offence_now(
        &mut s,
        acc(11),
        Exposure { total: 500, own: 500, others: vec![] },
        vec![],
        50,
    );
    assert_eq!(s.free_balance_of(acc(11)), 1000 - 250);
}

#[test]
fn dont_slash_if_fraction_is_zero() {
    let mut s = setup();
    assert_eq!(s.free_balance_of(acc(11)), 1000);
    let e = exposure_of(&s, 1, acc(11));
    on_offence_now(&mut s, acc(11), e, vec![], 0);
    // Nothing happened at all: no slash and no forced era.
    assert_eq!(s.free_balance_of(acc(11)), 1000);
    assert_eq!(s.force_era, Forcing::NotForcing);
    assert!(s.validators.get(acc(11) as u128).is_some());
}

#[test]
fn zero_slash_keeps_nominators() {
    let mut s = setup();
    let e = exposure_of(&s, 1, acc(11));
    on_offence_now(&mut s, acc(11), e, vec![], 0);
    assert_eq!(s.free_balance_of(acc(11)), 1000);
    assert_eq!(s.free_balance_of(acc(101)), 2000);
    // The vote cast before the report still counts, because the slash
    // was zero.
    assert!(s.nominators.get(acc(101) as u128).is_some());
    let submitted_in = s.nominators.get(acc(101) as u128).unwrap().submitted_in;
    assert!(s.nomination_usable(submitted_in, acc(11)));
}

#[test]
fn only_slash_for_max_in_era() {
    let mut s = setup();
    assert_eq!(s.free_balance_of(acc(11)), 1000);
    let e = exposure_of(&s, 1, acc(11));
    on_offence_now(&mut s, acc(11), e.clone(), vec![], 50);
    assert_eq!(s.free_balance_of(acc(11)), 500);
    assert_eq!(s.force_era, Forcing::ForceNew);
    on_offence_now(&mut s, acc(11), e.clone(), vec![], 25);
    // A milder fraction for the same era changes nothing.
    assert_eq!(s.free_balance_of(acc(11)), 500);
    on_offence_now(&mut s, acc(11), e, vec![], 60);
    // A worse fraction charges only the difference.
    assert_eq!(s.free_balance_of(acc(11)), 400);
}

#[test]
fn reporters_receive_their_slice() {
    // The reporters' reward comes from the whole exposed stake.
    let mut s = setup();
    let initial_balance = 1125;
    assert_eq!(exposure_of(&s, 1, acc(11)).total, initial_balance);
    let e = exposure_of(&s, 1, acc(11));
    on_offence_now(&mut s, acc(11), e, vec![acc(1), acc(2)], 50);
    let reward = (initial_balance / 20) / 2;
    let reward_each = reward / 2;
    assert_eq!(s.free_balance_of(acc(1)), 10 + reward_each);
    assert_eq!(s.free_balance_of(acc(2)), 20 + reward_each);
}

#[test]
fn subsequent_reports_in_same_span_pay_out_less() {
    let mut s = setup();
    let initial_balance = 1125;
    assert_eq!(exposure_of(&s, 1, acc(11)).total, initial_balance);
    let e = exposure_of(&s, 1, acc(11));
    on_offence_now(&mut s, acc(11), e.clone(), vec![acc(1)], 20);
    let reward = (initial_balance / 5) / 20;
    assert_eq!(s.free_balance_of(acc(1)), 10 + reward);
    on_offence_now(&mut s, acc(11), e, vec![acc(1)], 50);
    let prior_payout = reward;
    let reward = ((initial_balance / 20) - prior_payout) / 2;
    assert_eq!(s.free_balance_of(acc(1)), 10 + prior_payout + reward);
}

#[test]
fn invulnerables_are_not_slashed() {
    let mut s = setup();
    s.set_invulnerables(vec![acc(11)]);
    assert_eq!(s.free_balance_of(acc(11)), 1000);
    assert_eq!(s.free_balance_of(acc(21)), 2000);
    let initial_balance = s.slashable_balance_of(acc(21));
    let e11 = exposure_of(&s, 1, acc(11));
    let e21 = exposure_of(&s, 1, acc(21));
    s.on_offence(
        vec![
            OffenceReport { offender: acc(11), exposure: e11, reporters: vec![] },
            OffenceReport { offender: acc(21), exposure: e21, reporters: vec![] },
        ],
        vec![Ratio::from_percent(50), Ratio::from_percent(20)],
        1,
    );
    // Validator 11 was spared, 21 was slashed; backers are never
    // slashed.
    assert_eq!(s.free_balance_of(acc(11)), 1000);
    assert_eq!(s.free_balance_of(acc(21)), 2000 - (2 * initial_balance / 10));
    assert_eq!(s.free_balance_of(acc(101)), 2000);
}

#[test]
fn slash_kicks_validators_not_nominators() {
    let mut s = setup();
    assert_eq!(s.free_balance_of(acc(11)), 1000);
    let e = exposure_of(&s, 1, acc(11));
    on_offence_now(&mut s, acc(11), e, vec![], 10);
    assert_eq!(s.free_balance_of(acc(11)), 900);
    // Backer 101 is untouched.
    assert_eq!(s.free_balance_of(acc(101)), 2000);
    // The validator was chilled; the backer's vote stands but will be
    // ignored until resubmitted.
    assert!(s.validators.get(acc(11) as u128).is_none());
    let noms = s.nominators.get(acc(101) as u128).unwrap();
    let last_slash = s.spans.get(acc(11) as u128).unwrap().last_nonzero_slash;
    assert!(noms.submitted_in < last_slash);
}

#[test]
fn slashes_are_summed_across_spans() {
    let mut s = setup();
    start_era(&mut s, 3);
    assert_eq!(s.free_balance_of(acc(21)), 2000);
    assert_eq!(s.slashable_balance_of(acc(21)), 1000);
    let e = exposure_of(&s, 3, acc(21));
    on_offence_now(&mut s, acc(21), e, vec![], 10);
    let expected_spans = vec![
        SlashingSpan { index: 1, start: 4, length: None },
        SlashingSpan { index: 0, start: 0, length: Some(4) },
    ];
    assert_eq!(s.spans.get(acc(21) as u128).unwrap().spans, expected_spans);
    assert_eq!(s.free_balance_of(acc(21)), 1900);
    // 21 was force-chilled; re-signal the intent to validate.
    s.validate(acc(20), ValidatorPrefs::default()).unwrap();
    let mut winners = standard_winners();
    winners[1].own = 900;
    s.start_era(12, winners);
    assert_eq!(s.current_era, 4);
    assert_eq!(s.slashable_balance_of(acc(21)), 900);
    let e = exposure_of(&s, 4, acc(21));
    on_offence_now(&mut s, acc(21), e, vec![], 10);
    let expected_spans = vec![
        SlashingSpan { index: 2, start: 5, length: None },
        SlashingSpan { index: 1, start: 4, length: Some(1) },
        SlashingSpan { index: 0, start: 0, length: Some(4) },
    ];
    assert_eq!(s.spans.get(acc(21) as u128).unwrap().spans, expected_spans);
    assert_eq!(s.free_balance_of(acc(21)), 1810);
}

#[test]
fn garbage_collection_after_slashing() {
    let mut s = Staking::new(config_with_defer(0));
    s.set_balance(acc(10), 1);
    s.set_balance(acc(11), 256_000);
    s.bond(acc(11), acc(10), 256_000, RewardDestination::Staked).unwrap();
    s.validate(acc(10), ValidatorPrefs::default()).unwrap();
    s.start_era(
        3,
        vec![ElectedValidator { who: acc(11), own: 256_000, backers: vec![] }],
    );
    let e = exposure_of(&s, 1, acc(11));
    on_offence_now(&mut s, acc(11), e.clone(), vec![], 10);
    assert_eq!(s.free_balance_of(acc(11)), 256_000 - 25_600);
    assert!(s.spans.get(acc(11) as u128).is_some());
    assert_eq!(s.span_records.get(span_key(acc(11), 0)).unwrap().slashed, 25_600);
    on_offence_now(&mut s, acc(11), e, vec![], 100);
    assert_eq!(s.free_balance_of(acc(11)), 0);
    s.reap_stash(acc(11)).unwrap();
    assert!(s.spans.get(acc(11) as u128).is_none());
    assert!(s.span_records.get(span_key(acc(11), 0)).is_none());
}

#[test]
fn garbage_collection_on_window_pruning() {
    let mut s = setup();
    assert_eq!(s.free_balance_of(acc(11)), 1000);
    let e = exposure_of(&s, 1, acc(11));
    let now = s.current_era;
    on_offence_now(&mut s, acc(11), e, vec![], 10);
    assert_eq!(s.free_balance_of(acc(11)), 900);
    assert_eq!(s.free_balance_of(acc(101)), 2000);
    assert!(s.validator_slash_in_era.get(era_key(now, acc(11))).is_some());
    assert!(s.nominator_slash_in_era.get(era_key(now, acc(101))).is_some());
    // The markers survive the whole bonding window and no longer.
    for era in (0..(s.config.bonding_duration + 1)).map(|offset| offset + now + 1) {
        assert!(s.validator_slash_in_era.get(era_key(now, acc(11))).is_some());
        assert!(s.nominator_slash_in_era.get(era_key(now, acc(101))).is_some());
        start_era(&mut s, era);
    }
    assert!(s.validator_slash_in_era.get(era_key(now, acc(11))).is_none());
    assert!(s.nominator_slash_in_era.get(era_key(now, acc(101))).is_none());
}

#[test]
fn deferred_slashes_are_deferred() {
    let mut s = setup_with_defer(2);
    assert_eq!(s.free_balance_of(acc(11)), 1000);
    let e = exposure_of(&s, 1, acc(11));
    on_offence_now(&mut s, acc(11), e, vec![], 10);
    assert_eq!(s.free_balance_of(acc(11)), 1000);
    assert_eq!(s.free_balance_of(acc(101)), 2000);
    start_era(&mut s, 2);
    assert_eq!(s.free_balance_of(acc(11)), 1000);
    start_era(&mut s, 3);
    assert_eq!(s.free_balance_of(acc(11)), 1000);
    // Entering era 4, the slash recorded in era 1 is finally applied.
    start_era(&mut s, 4);
    assert_eq!(s.free_balance_of(acc(11)), 900);
    assert_eq!(s.free_balance_of(acc(101)), 2000);
}

#[test]
fn remove_deferred() {
    let mut s = setup_with_defer(2);
    assert_eq!(s.free_balance_of(acc(11)), 1000);
    let e = exposure_of(&s, 1, acc(11));
    on_offence_now(&mut s, acc(11), e.clone(), vec![], 10);
    assert_eq!(s.free_balance_of(acc(11)), 1000);
    start_era(&mut s, 2);
    on_offence_in_era(&mut s, acc(11), e, vec![], 15, 1);
    // Cancel the first recorded slash before it lands.
    s.cancel_deferred_slash(1, vec![0]).unwrap();
    assert_eq!(s.free_balance_of(acc(11)), 1000);
    start_era(&mut s, 3);
    assert_eq!(s.free_balance_of(acc(11)), 1000);
    start_era(&mut s, 4);
    // The cancelled first slash never lands.
    assert_eq!(s.free_balance_of(acc(11)), 1000);
    start_era(&mut s, 5);
    // Only the marginal worse part recorded in era 2 lands.
    assert_eq!(s.free_balance_of(acc(11)), 950);
}

#[test]
fn remove_multi_deferred() {
    let mut s = setup_with_defer(2);
    assert_eq!(s.free_balance_of(acc(11)), 1000);
    let e11 = exposure_of(&s, 1, acc(11));
    let e21 = exposure_of(&s, 1, acc(21));
    on_offence_now(&mut s, acc(11), e11.clone(), vec![], 10);
    on_offence_now(&mut s, acc(21), e21, vec![], 10);
    on_offence_now(&mut s, acc(11), e11, vec![], 25);
    assert_eq!(s.unapplied.get(1u128).unwrap().len(), 3);
    s.cancel_deferred_slash(1, vec![0, 2]).unwrap();
    let slashes = s.unapplied.get(1u128).unwrap();
    assert_eq!(slashes.len(), 1);
    assert_eq!(slashes[0].validator, acc(21));
}

#[test]
fn cancel_deferred_slash_checks_indices() {
    let mut s = setup_with_defer(2);
    let e = exposure_of(&s, 1, acc(11));
    on_offence_now(&mut s, acc(11), e, vec![], 10);
    assert_eq!(s.cancel_deferred_slash(1, vec![]), Err(Error::EmptyTargets));
    assert_eq!(
        s.cancel_deferred_slash(1, vec![1, 0]),
        Err(Error::NotSortedAndUnique)
    );
    assert_eq!(
        s.cancel_deferred_slash(1, vec![5]),
        Err(Error::InvalidSlashIndex)
    );
}

#[test]
fn slash_in_old_span_does_not_deselect() {
    let mut s = setup();
    // A first slash closes the span and chills the validator.
    let e = exposure_of(&s, 1, acc(11));
    on_offence_now(&mut s, acc(11), e, vec![], 10);
    assert!(s.validators.get(acc(11) as u128).is_none());
    assert_eq!(s.force_era, Forcing::ForceNew);
    // The validator re-registers and a new era starts.
    s.validate(acc(10), ValidatorPrefs::default()).unwrap();
    start_era(&mut s, 3);
    s.force_era = Forcing::NotForcing;
    assert!(s.validators.get(acc(11) as u128).is_some());
    // A worse report for the era of the old span charges the difference
    // but neither chills nor forces a new era.
    let e = exposure_of(&s, 1, acc(11));
    on_offence_in_era(&mut s, acc(11), e, vec![], 95, 1);
    assert_eq!(s.free_balance_of(acc(11)), 1000 - 950);
    assert_eq!(s.force_era, Forcing::NotForcing);
    assert!(s.validators.get(acc(11) as u128).is_some());
}

#[test]
fn stale_offence_reports_are_ignored() {
    // A report for an era outside the bonding window changes nothing.
    let mut s = setup();
    start_era(&mut s, 6);
    let e = exposure_of(&s, 6, acc(11));
    on_offence_in_era(&mut s, acc(11), e, vec![], 50, 1);
    assert_eq!(s.free_balance_of(acc(11)), 1000);
    assert_eq!(s.force_era, Forcing::NotForcing);
}

#[test]
fn end_to_end_offence_with_reporters() {
    // One offence, half the stake, two reporters sharing the reward.
    let mut s = setup();
    let exposure = Exposure {
        total: 1125,
        own: 1000,
        others: vec![IndividualExposure { who: acc(101), value: 125 }],
    };
    on_offence_now(&mut s, acc(11), exposure, vec![acc(1), acc(2)], 50);
    // Only the validator's own exposed stake is withdrawn.
    assert_eq!(s.free_balance_of(acc(11)), 1000 - 500);
    // The backer keeps everything.
    assert_eq!(s.free_balance_of(acc(101)), 2000);
    // The reporters split the reward slice evenly.
    let pool = 1125 / 2 / 10;
    let payout = pool / 2;
    assert_eq!(s.free_balance_of(acc(1)), 10 + payout / 2);
    assert_eq!(s.free_balance_of(acc(2)), 20 + payout / 2);
}
