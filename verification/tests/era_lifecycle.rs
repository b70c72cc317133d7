//! Session-driven era rotation, forcing flags, reward points and history
//! pruning.

use staking_core::eras::ElectedValidator;
use staking_core::ratio::Ratio;
use staking_core::staking::{era_key, Config, Staking};
use staking_core::types::{Forcing, IndividualExposure, RewardDestination, ValidatorPrefs};

fn acc(n: u64) -> u64 {
    n
}

fn config() -> Config {
    Config {
        validator_count: 2,
        minimum_validator_count: 1,
        sessions_per_era: 3,
        bonding_duration: 3,
        slash_defer_duration: 0,
        history_depth: 84,
        max_backers_per_validator: 64,
        slash_reward_fraction: Ratio::from_percent(10),
    }
}

fn standard_winners() -> Vec<ElectedValidator> {
    vec![
        ElectedValidator {
            who: acc(11),
            own: 1000,
            backers: vec![IndividualExposure { who: acc(101), value: 125 }],
        },
        ElectedValidator {
            who: acc(21),
            own: 1000,
            backers: vec![IndividualExposure { who: acc(101), value: 375 }],
        },
    ]
}

fn setup() -> Staking {
    let mut s = Staking::new(config());
    s.set_balance(acc(10), 1);
    s.set_balance(acc(11), 1000);
    s.set_balance(acc(20), 1);
    s.set_balance(acc(21), 2000);
    s.set_balance(acc(100), 1);
    s.set_balance(acc(101), 2000);
    s.bond(acc(11), acc(10), 1000, RewardDestination::Staked).unwrap();
    s.validate(acc(10), ValidatorPrefs::default()).unwrap();
    s.bond(acc(21), acc(20), 1000, RewardDestination::Staked).unwrap();
    s.validate(acc(20), ValidatorPrefs::default()).unwrap();
    s.bond(acc(101), acc(100), 500, RewardDestination::Staked).unwrap();
    s.nominate(acc(100), vec![acc(11), acc(21)]).unwrap();
    s
}

/// End session `ending` and let the engine decide whether an era starts.
fn end_session(s: &mut Staking, ending: u32) {
    if s.on_session_end(ending) {
        s.start_era(ending + 1, standard_winners());
    }
}

#[test]
fn session_and_eras_work() {
    let mut s = setup();
    assert_eq!(s.current_era, 0);
    // Sessions 0 and 1 end without an era change.
    end_session(&mut s, 0);
    assert_eq!(s.current_era, 0);
    end_session(&mut s, 1);
    assert_eq!(s.current_era, 0);
    // The third session completes the era.
    end_session(&mut s, 2);
    assert_eq!(s.current_era, 1);
    end_session(&mut s, 3);
    assert_eq!(s.current_era, 1);
    end_session(&mut s, 4);
    assert_eq!(s.current_era, 1);
    end_session(&mut s, 5);
    assert_eq!(s.current_era, 2);
    end_session(&mut s, 6);
    assert_eq!(s.current_era, 2);
    end_session(&mut s, 7);
    assert_eq!(s.current_era, 2);
    end_session(&mut s, 8);
    assert_eq!(s.current_era, 3);
}

#[test]
fn era_is_always_same_length() {
    let mut s = setup();
    let mut session: u32 = 0;
    while s.current_era < 1 {
        end_session(&mut s, session);
        session += 1;
    }
    assert_eq!(
        s.eras_start_session_index.get(1u128).copied(),
        Some(s.config.sessions_per_era)
    );
    while s.current_era < 2 {
        end_session(&mut s, session);
        session += 1;
    }
    assert_eq!(
        s.eras_start_session_index.get(2u128).copied(),
        Some(s.config.sessions_per_era * 2)
    );
    // A forced era cuts the schedule short; the next era still runs a
    // full count of sessions from its recorded start.
    s.force_new_era();
    end_session(&mut s, session);
    assert_eq!(s.current_era, 3);
    let forced_start = session + 1;
    assert_eq!(
        s.eras_start_session_index.get(3u128).copied(),
        Some(forced_start)
    );
    session += 1;
    while s.current_era < 4 {
        end_session(&mut s, session);
        session += 1;
    }
    assert_eq!(
        s.eras_start_session_index.get(4u128).copied(),
        Some(forced_start + s.config.sessions_per_era)
    );
}

#[test]
fn forcing_new_era_works() {
    let mut s = setup();
    // Normal schedule up to era 1.
    end_session(&mut s, 0);
    end_session(&mut s, 1);
    end_session(&mut s, 2);
    assert_eq!(s.current_era, 1);
    // No eras rotate under force-none.
    s.force_no_eras();
    end_session(&mut s, 3);
    end_session(&mut s, 4);
    end_session(&mut s, 5);
    end_session(&mut s, 6);
    end_session(&mut s, 7);
    assert_eq!(s.current_era, 1);
    // Back to normal; the era was due, so the next session end rotates.
    s.force_era = Forcing::NotForcing;
    end_session(&mut s, 8);
    assert_eq!(s.current_era, 2);
    // Under force-always every session ends an era.
    s.force_new_era_always();
    end_session(&mut s, 9);
    assert_eq!(s.current_era, 3);
    end_session(&mut s, 10);
    assert_eq!(s.current_era, 4);
    // A one-shot force rotates once and resets itself.
    s.force_era = Forcing::ForceNew;
    end_session(&mut s, 11);
    assert_eq!(s.current_era, 5);
    assert_eq!(s.force_era, Forcing::NotForcing);
}

#[test]
fn less_than_needed_candidates_works() {
    // With too few winners the previous validator set carries forward on
    // bare self-stakes.
    let mut s = setup();
    end_session(&mut s, 0);
    end_session(&mut s, 1);
    end_session(&mut s, 2);
    assert_eq!(s.current_era, 1);
    // The elector returns nothing at the next rotation.
    s.start_era(6, vec![]);
    assert_eq!(s.current_era, 2);
    let e11 = s.eras_stakers.get(era_key(2, acc(11))).unwrap();
    assert_eq!(e11.own, 1000);
    assert_eq!(e11.total, 1000);
    assert!(e11.others.is_empty());
    let e21 = s.eras_stakers.get(era_key(2, acc(21))).unwrap();
    assert_eq!(e21.own, 1000);
    assert!(e21.others.is_empty());
}

#[test]
fn new_era_installs_the_winners() {
    let mut s = setup();
    s.start_era(3, standard_winners());
    assert_eq!(s.session_validators, vec![acc(11), acc(21)]);
    // A failed election keeps the old set in place.
    s.start_era(6, vec![]);
    assert_eq!(s.session_validators, vec![acc(11), acc(21)]);
}

#[test]
fn add_reward_points_fns_works() {
    let mut s = setup();
    s.start_era(3, standard_winners());
    s.reward_by_ids(vec![(acc(21), 1), (acc(11), 1), (acc(11), 1)]);
    s.reward_by_ids(vec![(acc(21), 1), (acc(11), 1), (acc(11), 1)]);
    let era = s.current_era;
    assert_eq!(s.eras_points_total.get(era as u128).copied(), Some(6));
    assert_eq!(s.eras_points_individual.get(era_key(era, acc(11))).copied(), Some(4));
    assert_eq!(s.eras_points_individual.get(era_key(era, acc(21))).copied(), Some(2));
}

#[test]
fn set_history_depth_works() {
    let mut s = setup();
    while s.current_era < 10 {
        let session = (s.current_era + 1) * s.config.sessions_per_era;
        s.start_era(session, standard_winners());
    }
    // A deep history keeps everything.
    s.set_history_depth(20);
    assert!(s.eras_total_stake.get((10 - 4) as u128).is_some());
    assert!(s.eras_total_stake.get((10 - 5) as u128).is_some());
    // Cutting the depth prunes whatever falls outside the new window:
    // with depth 4 only eras after 10 - 4 + 1 - 1 remain.
    s.set_history_depth(4);
    assert!(s.eras_total_stake.get((10 - 3) as u128).is_some());
    assert!(s.eras_total_stake.get((10 - 4) as u128).is_none());
    assert!(s.eras_total_stake.get((10 - 5) as u128).is_none());
    s.set_history_depth(3);
    assert!(s.eras_total_stake.get((10 - 2) as u128).is_some());
    assert!(s.eras_total_stake.get((10 - 3) as u128).is_none());
    assert!(s.eras_total_stake.get((10 - 4) as u128).is_none());
    // Raising the depth does not restore what was pruned.
    s.set_history_depth(8);
    assert!(s.eras_total_stake.get((10 - 3) as u128).is_none());
    assert!(s.eras_total_stake.get((10 - 4) as u128).is_none());
}

#[test]
fn expired_nominators_are_unbonded() {
    // The host judges the identity attestations; the engine withdraws
    // the votes and schedules the stakes to unlock.
    let mut s = setup();
    s.start_era(3, standard_winners());
    assert!(s.nominators.get(acc(101) as u128).is_some());
    s.validate_cdd_expiry_nominators(vec![acc(101)]);
    assert!(s.nominators.get(acc(101) as u128).is_none());
    let l = s.ledger_of(acc(100)).unwrap();
    assert_eq!(l.active, 0);
    assert_eq!(l.unlocking.len(), 1);
    assert_eq!(l.unlocking[0].value, 500);
}

#[test]
fn should_add_permissioned_validators() {
    let mut s = setup();
    s.add_permissioned_validator(acc(10)).unwrap();
    s.add_permissioned_validator(acc(20)).unwrap();
    assert_eq!(
        s.permissioned.get(acc(10) as u128).unwrap().compliance,
        staking_core::types::Compliance::Pending
    );
    assert_eq!(
        s.permissioned.get(acc(20) as u128).unwrap().compliance,
        staking_core::types::Compliance::Pending
    );
}

#[test]
fn should_remove_permissioned_validators() {
    let mut s = setup();
    s.add_permissioned_validator(acc(10)).unwrap();
    s.add_permissioned_validator(acc(20)).unwrap();
    s.remove_permissioned_validator(acc(20)).unwrap();
    assert!(s.permissioned.get(acc(10) as u128).is_some());
    assert!(s.permissioned.get(acc(20) as u128).is_none());
    assert!(s.permissioned.get(acc(30) as u128).is_none());
}

#[test]
fn switching_roles() {
    // An account can move freely between validating and nominating.
    let mut s = setup();
    assert!(s.validators.get(acc(11) as u128).is_some());
    assert!(s.nominators.get(acc(11) as u128).is_none());
    s.nominate(acc(10), vec![acc(21)]).unwrap();
    assert!(s.validators.get(acc(11) as u128).is_none());
    assert!(s.nominators.get(acc(11) as u128).is_some());
    s.validate(acc(10), ValidatorPrefs::default()).unwrap();
    assert!(s.validators.get(acc(11) as u128).is_some());
    assert!(s.nominators.get(acc(11) as u128).is_none());
}

#[test]
fn votes_for_non_validators_do_not_count() {
    // A vote may name anything; only targets that offer to validate
    // count when the elector's input is prepared.
    let mut s = setup();
    s.set_balance(acc(1), 5000);
    s.bond(acc(1), acc(2), 2000, RewardDestination::default()).unwrap();
    s.nominate(acc(2), vec![acc(11), acc(21), acc(1), acc(15), acc(25)]).unwrap();
    let submitted_in = s.nominators.get(acc(1) as u128).unwrap().submitted_in;
    assert!(s.nomination_usable(submitted_in, acc(11)));
    assert!(s.nomination_usable(submitted_in, acc(21)));
    assert!(!s.nomination_usable(submitted_in, acc(1)));
    assert!(!s.nomination_usable(submitted_in, acc(15)));
    assert!(!s.nomination_usable(submitted_in, acc(25)));
}

#[test]
fn election_input_assembly_filters_candidates_and_votes() {
    // The elector's input: validating candidates the caller judged
    // eligible, and eligible nominators with only their still-counting
    // targets.
    let mut s = setup();
    s.start_era(3, standard_winners());
    // 31 never bonded here; 11 and 21 validate.
    let eligible = vec![acc(11), acc(21), acc(101)];
    let candidates = s.election_candidates(&eligible);
    assert_eq!(candidates, vec![(acc(11), 1000), (acc(21), 1000)]);
    // An ineligible validator is left out.
    let candidates = s.election_candidates(&vec![acc(21), acc(101)]);
    assert_eq!(candidates, vec![(acc(21), 1000)]);
    let backers = s.election_backers(&eligible);
    assert_eq!(backers.len(), 1);
    assert_eq!(backers[0].who, acc(101));
    assert_eq!(backers[0].stake, 500);
    assert_eq!(backers[0].targets, vec![acc(11), acc(21)]);
    // An ineligible nominator is left out entirely.
    assert!(s.election_backers(&vec![acc(11), acc(21)]).is_empty());
    // After a charged slash on 11, the old vote for it stops counting.
    let e = s.eras_stakers.get(era_key(1, acc(11))).unwrap().clone();
    s.on_offence(
        vec![staking_core::offence::OffenceReport {
            offender: acc(11),
            exposure: e,
            reporters: vec![],
        }],
        vec![Ratio::from_percent(10)],
        1,
    );
    s.validate(acc(10), ValidatorPrefs::default()).unwrap();
    let backers = s.election_backers(&eligible);
    assert_eq!(backers.len(), 1);
    assert_eq!(backers[0].targets, vec![acc(21)]);
    // A resubmitted vote counts again.
    s.nominate(acc(100), vec![acc(11), acc(21)]).unwrap();
    let backers = s.election_backers(&eligible);
    assert_eq!(backers[0].targets, vec![acc(11), acc(21)]);
}

#[test]
fn nomination_eligibility_follows_slashes() {
    // A vote cast before a validator's last non-zero slash stops
    // counting until it is resubmitted.
    let mut s = setup();
    s.start_era(3, standard_winners());
    let submitted_in = s.nominators.get(acc(101) as u128).unwrap().submitted_in;
    assert!(s.nomination_usable(submitted_in, acc(11)));
    let e = s.eras_stakers.get(era_key(1, acc(11))).unwrap().clone();
    s.on_offence(
        vec![staking_core::offence::OffenceReport {
            offender: acc(11),
            exposure: e,
            reporters: vec![],
        }],
        vec![Ratio::from_percent(10)],
        1,
    );
    // The slash chilled the validator, so the vote no longer counts.
    assert!(!s.nomination_usable(submitted_in, acc(11)));
    // Re-registering alone does not revive old votes.
    s.validate(acc(10), ValidatorPrefs::default()).unwrap();
    assert!(!s.nomination_usable(submitted_in, acc(11)));
    // A vote resubmitted after the slash counts again.
    s.nominate(acc(100), vec![acc(11)]).unwrap();
    let resubmitted = s.nominators.get(acc(101) as u128).unwrap().submitted_in;
    assert!(s.nomination_usable(resubmitted, acc(11)));
}
