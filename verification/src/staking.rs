//! The staking engine: one state value holding every ledger and era record,
//! with the dispatchable operations as its methods.
//!
//! External collaborators stay outside: the elector's result, eligibility
//! judgments and the issuance oracle's payout figure are plain values handed
//! into the operations that need them.

use crate::ledger::{chunk_sum, StakingLedger, MAX_UNLOCKING_CHUNKS};
use crate::ratio::Ratio;
use crate::slashing::{SlashingSpans, SpanRecord};
use crate::store::Store;
use crate::types::{
    AccountId, Balance, EraIndex, Error, Exposure, Forcing, Nominations,
    PermissionedValidator, RewardDestination, SessionIndex, UnappliedSlash, ValidatorPrefs,
};
use vstd::arithmetic::div_mod::lemma_div_multiples_vanish_fancy;
use vstd::prelude::*;

verus! {

/// The boundary between the era part and the account part of a composite
/// store key.
pub const ERA_KEY_BASE: u128 = 0x1_0000_0000_0000_0000;

/// The boundary between the account part and the span part of a span store
/// key.
pub const SPAN_KEY_BASE: u128 = 0x1_0000_0000;

/// The composite key addressing per-era, per-account data.
pub open spec fn era_key_spec(era: EraIndex, who: AccountId) -> u128 {
    (era as int * ERA_KEY_BASE as int + who as int) as u128
}

/// The era part of a composite era key.
pub open spec fn era_of_key(k: u128) -> int {
    k as int / ERA_KEY_BASE as int
}

/// The composite key addressing one slashing span's record.
pub open spec fn span_key_spec(who: AccountId, index: u32) -> u128 {
    (who as int * SPAN_KEY_BASE as int + index as int) as u128
}

/// The account part of a span record key.
pub open spec fn account_of_span_key(k: u128) -> int {
    k as int / SPAN_KEY_BASE as int
}

/// An era key carries its era in its upper half.
pub proof fn lemma_era_key(era: EraIndex, who: AccountId)
    ensures
        era_of_key(era_key_spec(era, who)) == era,
        era_key_spec(era, who) <= u128::MAX,
{
    lemma_div_multiples_vanish_fancy(era as int, who as int, ERA_KEY_BASE as int);
    assert(ERA_KEY_BASE as int * era as int == era as int * ERA_KEY_BASE as int);
    assert(era as int * ERA_KEY_BASE as int <= (u32::MAX as int) * ERA_KEY_BASE as int)
        by (nonlinear_arith)
        requires
            era <= u32::MAX,
    {}
}

/// A span key carries its account in its upper part.
pub proof fn lemma_span_key(who: AccountId, index: u32)
    ensures
        account_of_span_key(span_key_spec(who, index)) == who,
        span_key_spec(who, index) <= u128::MAX,
{
    lemma_div_multiples_vanish_fancy(who as int, index as int, SPAN_KEY_BASE as int);
    assert(SPAN_KEY_BASE as int * who as int == who as int * SPAN_KEY_BASE as int);
    assert(who as int * SPAN_KEY_BASE as int <= (u64::MAX as int) * SPAN_KEY_BASE as int)
        by (nonlinear_arith)
        requires
            who <= u64::MAX,
    {}
}

/// The composite key addressing per-era, per-account data.
pub fn era_key(era: EraIndex, who: AccountId) -> (k: u128)
    ensures
        k == era_key_spec(era, who),
{
    proof {
        lemma_era_key(era, who);
    }
    era as u128 * ERA_KEY_BASE + who as u128
}

/// The composite key addressing one slashing span's record.
pub fn span_key(who: AccountId, index: u32) -> (k: u128)
    ensures
        k == span_key_spec(who, index),
{
    proof {
        lemma_span_key(who, index);
    }
    who as u128 * SPAN_KEY_BASE + index as u128
}

/// The fixed configuration of the engine.
#[derive(Clone, Copy, PartialEq, Eq, Debug)]
pub struct Config {
    /// The size of the validator set the elector is asked for.
    pub validator_count: u32,
    /// Below this many winners the previous set is carried forward.
    pub minimum_validator_count: u32,
    /// How many sessions one era lasts.
    pub sessions_per_era: u32,
    /// How many eras unbonded funds wait before withdrawal.
    pub bonding_duration: u32,
    /// How many whole eras a slash waits before it is applied; zero applies
    /// it at once.
    pub slash_defer_duration: u32,
    /// How many past eras of records are kept.
    pub history_depth: u32,
    /// How many backers of one validator share in its rewards.
    pub max_backers_per_validator: u32,
    /// The part of a slash set aside for its reporters.
    pub slash_reward_fraction: Ratio,
}

/// The whole state of the staking engine.
pub struct Staking {
    /// The fixed configuration.
    pub config: Config,
    /// Stashes that are never slashed.
    pub invulnerables: Vec<AccountId>,
    /// The active era.
    pub current_era: EraIndex,
    /// Whether the next era change is forced.
    pub force_era: Forcing,
    /// The stashes of the validators active this era.
    pub session_validators: Vec<AccountId>,
    /// The free balance of each account: the engine's view of the currency.
    pub free_balance: Store<Balance>,
    /// stash -> controller.
    pub bonded: Store<AccountId>,
    /// controller -> its staking ledger.
    pub ledger: Store<StakingLedger>,
    /// stash -> where its rewards go.
    pub payee: Store<RewardDestination>,
    /// stash -> its offer to validate.
    pub validators: Store<ValidatorPrefs>,
    /// stash -> its standing vote.
    pub nominators: Store<Nominations>,
    /// stash -> its entry in the permissioned whitelist.
    pub permissioned: Store<PermissionedValidator>,
    /// (era, validator) -> full exposure.
    pub eras_stakers: Store<Exposure>,
    /// (era, validator) -> exposure clipped to the rewarded backers.
    pub eras_stakers_clipped: Store<Exposure>,
    /// (era, validator) -> the preferences the era was elected under.
    pub eras_validator_prefs: Store<ValidatorPrefs>,
    /// era -> total reward points.
    pub eras_points_total: Store<u32>,
    /// (era, validator) -> its reward points.
    pub eras_points_individual: Store<u32>,
    /// era -> the total stake backing the era's validator set.
    pub eras_total_stake: Store<Balance>,
    /// era -> the session it started in.
    pub eras_start_session_index: Store<SessionIndex>,
    /// era -> the era's total payout, cached at the first claim.
    pub eras_validator_reward: Store<Balance>,
    /// account -> its slashing span history.
    pub spans: Store<SlashingSpans>,
    /// (account, span index) -> the span's accumulated charge.
    pub span_records: Store<SpanRecord>,
    /// (era, validator) -> the worst slash fraction reported for that era,
    /// in parts per billion.
    pub validator_slash_in_era: Store<u32>,
    /// (era, nominator) -> the worst backing loss computed for that era;
    /// recorded only, never withdrawn.
    pub nominator_slash_in_era: Store<Balance>,
    /// report era -> the slashes waiting out the deferral window.
    pub unapplied: Store<Vec<UnappliedSlash>>,
}

impl Staking {
    /// Every store is well shaped, every ledger balances its books, every
    /// recorded exposure and span history is well formed.
    pub open spec fn wf(self) -> bool {
        &&& self.session_validators@.no_duplicates()
        &&& self.free_balance.wf()
        &&& self.bonded.wf()
        &&& self.ledger.wf()
        &&& self.payee.wf()
        &&& self.validators.wf()
        &&& self.nominators.wf()
        &&& self.permissioned.wf()
        &&& self.eras_stakers.wf()
        &&& self.eras_stakers_clipped.wf()
        &&& self.eras_validator_prefs.wf()
        &&& self.eras_points_total.wf()
        &&& self.eras_points_individual.wf()
        &&& self.eras_total_stake.wf()
        &&& self.eras_start_session_index.wf()
        &&& self.eras_validator_reward.wf()
        &&& self.spans.wf()
        &&& self.span_records.wf()
        &&& self.validator_slash_in_era.wf()
        &&& self.nominator_slash_in_era.wf()
        &&& self.unapplied.wf()
        &&& forall|c: u128|
            self.ledger@.dom().contains(c) ==> (#[trigger] self.ledger@[c]).wf()
        &&& forall|k: u128|
            self.eras_stakers_clipped@.dom().contains(k) ==> (#[trigger] self.eras_stakers_clipped@[k]).wf(
                self.config.max_backers_per_validator as int,
            )
        &&& forall|k: u128|
            self.eras_stakers@.dom().contains(k) ==> (#[trigger] self.eras_stakers@[k]).wf(
                self.eras_stakers@[k].others@.len() as int,
            )
        &&& forall|a: u128| self.spans@.dom().contains(a) ==> (#[trigger] self.spans@[a]).wf()
    }

    /// A fresh engine: era zero just started, nothing bonded, nothing
    /// recorded.
    pub fn new(config: Config) -> (s: Self)
        ensures
            s.wf(),
            s.config == config,
            s.current_era == 0,
            s.force_era == Forcing::NotForcing,
            s.session_validators@.len() == 0,
            s.free_balance@ =~= Map::<u128, Balance>::empty(),
            s.bonded@ =~= Map::<u128, AccountId>::empty(),
            s.ledger@ =~= Map::<u128, StakingLedger>::empty(),
            s.payee@ =~= Map::<u128, RewardDestination>::empty(),
            s.validators@ =~= Map::<u128, ValidatorPrefs>::empty(),
            s.nominators@ =~= Map::<u128, Nominations>::empty(),
            s.permissioned@ =~= Map::<u128, PermissionedValidator>::empty(),
            s.eras_stakers@ =~= Map::<u128, Exposure>::empty(),
            s.eras_stakers_clipped@ =~= Map::<u128, Exposure>::empty(),
            s.eras_points_total@ =~= Map::<u128, u32>::empty(),
            s.eras_points_individual@ =~= Map::<u128, u32>::empty(),
            s.eras_validator_reward@ =~= Map::<u128, Balance>::empty(),
            s.spans@ =~= Map::<u128, SlashingSpans>::empty(),
            s.span_records@ =~= Map::<u128, SpanRecord>::empty(),
            s.unapplied@ =~= Map::<u128, Vec<UnappliedSlash>>::empty(),
            s.eras_start_session_index@ =~= Map::<u128, SessionIndex>::empty(),
            s.eras_total_stake@ =~= Map::<u128, Balance>::empty(),
            s.invulnerables@.len() == 0,
    {
        Staking {
            config,
            invulnerables: Vec::new(),
            current_era: 0,
            force_era: Forcing::NotForcing,
            session_validators: Vec::new(),
            free_balance: Store::new(),
            bonded: Store::new(),
            ledger: Store::new(),
            payee: Store::new(),
            validators: Store::new(),
            nominators: Store::new(),
            permissioned: Store::new(),
            eras_stakers: Store::new(),
            eras_stakers_clipped: Store::new(),
            eras_validator_prefs: Store::new(),
            eras_points_total: Store::new(),
            eras_points_individual: Store::new(),
            eras_total_stake: Store::new(),
            eras_start_session_index: Store::new(),
            eras_validator_reward: Store::new(),
            spans: Store::new(),
            span_records: Store::new(),
            validator_slash_in_era: Store::new(),
            nominator_slash_in_era: Store::new(),
            unapplied: Store::new(),
        }
    }

    /// Make the invulnerable set exactly `list`.
    pub fn set_invulnerables(&mut self, list: Vec<AccountId>)
        requires
            old(self).wf(),
        ensures
            final(self).wf(),
            *final(self) == (Staking { invulnerables: list, ..*old(self) }),
    {
        self.invulnerables = list;
    }

    /// The engine's view of an account's free balance; an unknown account
    /// holds nothing.
    pub open spec fn balance_spec(self, who: AccountId) -> Balance {
        if self.free_balance@.dom().contains(who as u128) {
            self.free_balance@[who as u128]
        } else {
            0
        }
    }

    pub fn free_balance_of(&self, who: AccountId) -> (r: Balance)
        requires
            self.wf(),
        ensures
            r == self.balance_spec(who),
    {
        match self.free_balance.get(who as u128) {
            Some(b) => *b,
            None => 0,
        }
    }

    /// Set an account's balance outright, as a genesis endowment or an
    /// external transfer observed by the engine.
    pub fn set_balance(&mut self, who: AccountId, value: Balance)
        requires
            old(self).wf(),
        ensures
            final(self).wf(),
            *final(self) == (Staking { free_balance: final(self).free_balance, ..*old(self) }),
            final(self).free_balance@ == old(self).free_balance@.insert(who as u128, value),
    {
        self.free_balance.insert(who as u128, value);
    }

    /// The controller of a bonded stash.
    pub fn bonded_of(&self, stash: AccountId) -> (r: Option<AccountId>)
        requires
            self.wf(),
        ensures
            r == if self.bonded@.dom().contains(stash as u128) {
                Some(self.bonded@[stash as u128])
            } else {
                None::<AccountId>
            },
    {
        match self.bonded.get(stash as u128) {
            Some(c) => Some(*c),
            None => None,
        }
    }

    /// The ledger a controller manages.
    pub fn ledger_of(&self, controller: AccountId) -> (r: Option<&StakingLedger>)
        requires
            self.wf(),
        ensures
            match r {
                Some(l) => self.ledger@.dom().contains(controller as u128) && *l
                    == self.ledger@[controller as u128],
                None => !self.ledger@.dom().contains(controller as u128),
            },
    {
        self.ledger.get(controller as u128)
    }

    /// The active stake standing behind a stash: what a slash can reach.
    pub open spec fn slashable_balance_spec(self, stash: AccountId) -> Balance {
        if self.bonded@.dom().contains(stash as u128) && self.ledger@.dom().contains(
            self.bonded@[stash as u128] as u128,
        ) {
            self.ledger@[self.bonded@[stash as u128] as u128].active
        } else {
            0
        }
    }

    pub fn slashable_balance_of(&self, stash: AccountId) -> (r: Balance)
        requires
            self.wf(),
        ensures
            r == self.slashable_balance_spec(stash),
    {
        match self.bonded.get(stash as u128) {
            Some(c) => {
                let c = *c;
                match self.ledger.get(c as u128) {
                    Some(l) => l.active,
                    None => 0,
                }
            },
            None => 0,
        }
    }

    /// Bond `value` of the stash's free balance (all of it, if it holds
    /// less), handing control to `controller`.
    pub fn bond(
        &mut self,
        stash: AccountId,
        controller: AccountId,
        value: Balance,
        payee: RewardDestination,
    ) -> (r: Result<(), Error>)
        requires
            old(self).wf(),
        ensures
            final(self).wf(),
            r == Err::<(), Error>(Error::AlreadyBonded) <==> old(self).bonded@.dom().contains(
                stash as u128,
            ),
            r == Err::<(), Error>(Error::AlreadyPaired) <==> (!old(self).bonded@.dom().contains(
                stash as u128,
            ) && old(self).ledger@.dom().contains(controller as u128)),
            r is Ok <==> (!old(self).bonded@.dom().contains(stash as u128) && !old(
                self,
            ).ledger@.dom().contains(controller as u128)),
            r is Err ==> *final(self) == *old(self),
            r is Ok ==> {
                &&& final(self).bonded@ == old(self).bonded@.insert(stash as u128, controller)
                &&& final(self).payee@ == old(self).payee@.insert(stash as u128, payee)
                &&& final(self).ledger@ == old(self).ledger@.insert(
                    controller as u128,
                    final(self).ledger@[controller as u128],
                )
                &&& final(self).ledger@[controller as u128].stash == stash
                &&& final(self).ledger@[controller as u128].active == if value <= old(
                    self,
                ).balance_spec(stash) {
                    value as int
                } else {
                    old(self).balance_spec(stash) as int
                }
                &&& final(self).ledger@[controller as u128].total == final(self).ledger@[controller
                    as u128].active
                &&& final(self).ledger@[controller as u128].unlocking@.len() == 0
                &&& final(self).ledger@[controller as u128].last_reward is None
                &&& *final(self) == (Staking {
                    bonded: final(self).bonded,
                    ledger: final(self).ledger,
                    payee: final(self).payee,
                    ..*old(self)
                })
            },
    {
        if self.bonded.contains_key(stash as u128) {
            return Err(Error::AlreadyBonded);
        }
        if self.ledger.contains_key(controller as u128) {
            return Err(Error::AlreadyPaired);
        }
        let balance = self.free_balance_of(stash);
        let bonded_value = if value <= balance {
            value
        } else {
            balance
        };
        self.bonded.insert(stash as u128, controller);
        self.payee.insert(stash as u128, payee);
        let l = StakingLedger::bonded(stash, bonded_value);
        self.ledger.insert(controller as u128, l);
        Ok(())
    }

    /// Bond whatever of the stash's free balance is not already bonded, up
    /// to `max_additional` more.
    pub fn bond_extra(&mut self, stash: AccountId, max_additional: Balance) -> (r: Result<
        (),
        Error,
    >)
        requires
            old(self).wf(),
        ensures
            final(self).wf(),
            r == Err::<(), Error>(Error::NotStash) <==> !old(self).bonded@.dom().contains(
                stash as u128,
            ),
            r == Err::<(), Error>(Error::NotController) <==> (old(self).bonded@.dom().contains(
                stash as u128,
            ) && !old(self).ledger@.dom().contains(old(self).bonded@[stash as u128] as u128)),
            r is Ok <==> (old(self).bonded@.dom().contains(stash as u128) && old(
                self,
            ).ledger@.dom().contains(old(self).bonded@[stash as u128] as u128)),
            r is Err ==> *final(self) == *old(self),
            r is Ok ==> {
                let c = old(self).bonded@[stash as u128] as u128;
                let lold = old(self).ledger@[c];
                let avail = if old(self).balance_spec(stash) >= lold.total {
                    old(self).balance_spec(stash) - lold.total
                } else {
                    0int
                };
                let extra = if max_additional <= avail {
                    max_additional as int
                } else {
                    avail
                };
                &&& final(self).ledger@ == old(self).ledger@.insert(
                    c,
                    final(self).ledger@[c],
                )
                &&& final(self).ledger@[c].total == lold.total + extra
                &&& final(self).ledger@[c].active == lold.active + extra
                &&& final(self).ledger@[c].unlocking@ == lold.unlocking@
                &&& final(self).ledger@[c].stash == lold.stash
                &&& final(self).ledger@[c].last_reward == lold.last_reward
                &&& *final(self) == (Staking { ledger: final(self).ledger, ..*old(self) })
            },
    {
        let controller = match self.bonded.get(stash as u128) {
            Some(c) => *c,
            None => {
                return Err(Error::NotStash);
            },
        };
        let mut l = match self.ledger.remove(controller as u128) {
            Some(l) => l,
            None => {
                return Err(Error::NotController);
            },
        };
        let balance = self.free_balance_of(stash);
        let avail = if balance >= l.total {
            balance - l.total
        } else {
            0
        };
        let extra = if max_additional <= avail {
            max_additional
        } else {
            avail
        };
        proof {
            crate::ledger::lemma_chunk_sum_nonneg(l.unlocking@);
        }
        l.bond_extra(extra);
        self.ledger.insert(controller as u128, l);
        proof {
            assert(self.ledger@ =~= old(self).ledger@.insert(
                controller as u128,
                self.ledger@[controller as u128],
            ));
        }
        Ok(())
    }

    /// Schedule `value` of the active stake to unlock once the bonding
    /// duration has passed.
    pub fn unbond(&mut self, controller: AccountId, value: Balance) -> (r: Result<(), Error>)
        requires
            old(self).wf(),
        ensures
            final(self).wf(),
            r == Err::<(), Error>(Error::NotController) <==> !old(self).ledger@.dom().contains(
                controller as u128,
            ),
            r == Err::<(), Error>(Error::NoMoreChunks) <==> (old(self).ledger@.dom().contains(
                controller as u128,
            ) && old(self).ledger@[controller as u128].unlocking@.len() >= MAX_UNLOCKING_CHUNKS),
            r is Ok <==> (old(self).ledger@.dom().contains(controller as u128) && old(
                self,
            ).ledger@[controller as u128].unlocking@.len() < MAX_UNLOCKING_CHUNKS),
            r is Err ==> *final(self) == *old(self),
            r is Ok ==> {
                let lold = old(self).ledger@[controller as u128];
                let moved = if value <= lold.active {
                    value as int
                } else {
                    lold.active as int
                };
                let era = if old(self).current_era + old(self).config.bonding_duration <= u32::MAX {
                    old(self).current_era + old(self).config.bonding_duration
                } else {
                    u32::MAX as int
                };
                &&& final(self).ledger@ == old(self).ledger@.insert(
                    controller as u128,
                    final(self).ledger@[controller as u128],
                )
                &&& final(self).ledger@[controller as u128].active == lold.active - moved
                &&& final(self).ledger@[controller as u128].total == lold.total
                &&& final(self).ledger@[controller as u128].unlocking@ == lold.unlocking@.push(
                    crate::ledger::UnlockChunk { value: moved as u128, era: era as u32 },
                )
                &&& final(self).ledger@[controller as u128].stash == lold.stash
                &&& final(self).ledger@[controller as u128].last_reward == lold.last_reward
                &&& *final(self) == (Staking { ledger: final(self).ledger, ..*old(self) })
            },
    {
        if !self.ledger.contains_key(controller as u128) {
            return Err(Error::NotController);
        }
        let n = match self.ledger.get(controller as u128) {
            Some(l) => l.unlocking.len(),
            None => 0,
        };
        if n >= MAX_UNLOCKING_CHUNKS {
            return Err(Error::NoMoreChunks);
        }
        let mut l = match self.ledger.remove(controller as u128) {
            Some(l) => l,
            None => {
                return Err(Error::NotController);
            },
        };
        let era = if self.current_era <= u32::MAX - self.config.bonding_duration {
            self.current_era + self.config.bonding_duration
        } else {
            u32::MAX
        };
        l.unbond(value, era);
        self.ledger.insert(controller as u128, l);
        proof {
            assert(self.ledger@ =~= old(self).ledger@.insert(
                controller as u128,
                self.ledger@[controller as u128],
            ));
        }
        Ok(())
    }

    /// Move up to `value` back from the unlocking chunks into the active
    /// stake, unwinding the most recent chunks first.
    pub fn rebond(&mut self, controller: AccountId, value: Balance) -> (r: Result<(), Error>)
        requires
            old(self).wf(),
        ensures
            final(self).wf(),
            r == Err::<(), Error>(Error::NotController) <==> !old(self).ledger@.dom().contains(
                controller as u128,
            ),
            r == Err::<(), Error>(Error::NoUnlockChunk) <==> (old(self).ledger@.dom().contains(
                controller as u128,
            ) && old(self).ledger@[controller as u128].unlocking@.len() == 0),
            r is Ok <==> (old(self).ledger@.dom().contains(controller as u128) && old(
                self,
            ).ledger@[controller as u128].unlocking@.len() > 0),
            r is Err ==> *final(self) == *old(self),
            r is Ok ==> {
                let lold = old(self).ledger@[controller as u128];
                let moved = crate::ledger::rebond_chunks(lold.unlocking@, value as int).1;
                &&& final(self).ledger@ == old(self).ledger@.insert(
                    controller as u128,
                    final(self).ledger@[controller as u128],
                )
                &&& final(self).ledger@[controller as u128].active == lold.active + moved
                &&& final(self).ledger@[controller as u128].total == lold.total
                &&& final(self).ledger@[controller as u128].unlocking@
                    == crate::ledger::rebond_chunks(lold.unlocking@, value as int).0
                &&& final(self).ledger@[controller as u128].stash == lold.stash
                &&& final(self).ledger@[controller as u128].last_reward == lold.last_reward
                &&& *final(self) == (Staking { ledger: final(self).ledger, ..*old(self) })
            },
    {
        if !self.ledger.contains_key(controller as u128) {
            return Err(Error::NotController);
        }
        let n = match self.ledger.get(controller as u128) {
            Some(l) => l.unlocking.len(),
            None => 0,
        };
        if n == 0 {
            return Err(Error::NoUnlockChunk);
        }
        let mut l = match self.ledger.remove(controller as u128) {
            Some(l) => l,
            None => {
                return Err(Error::NotController);
            },
        };
        l.rebond(value);
        self.ledger.insert(controller as u128, l);
        proof {
            assert(self.ledger@ =~= old(self).ledger@.insert(
                controller as u128,
                self.ledger@[controller as u128],
            ));
        }
        Ok(())
    }

    /// Free every chunk whose era has arrived.  A ledger drained to nothing
    /// is torn down entirely.
    pub fn withdraw_unbonded(&mut self, controller: AccountId) -> (r: Result<(), Error>)
        requires
            old(self).wf(),
        ensures
            final(self).wf(),
            r == Err::<(), Error>(Error::NotController) <==> !old(self).ledger@.dom().contains(
                controller as u128,
            ),
            r is Ok <==> old(self).ledger@.dom().contains(controller as u128),
            r is Err ==> *final(self) == *old(self),
            r is Ok ==> {
                let lold = old(self).ledger@[controller as u128];
                let kept = lold.unlocking@.filter(
                    |c: crate::ledger::UnlockChunk| c.era > old(self).current_era,
                );
                let newtotal = lold.active + chunk_sum(kept);
                if lold.active == 0 && kept.len() == 0 {
                    final(self).ledger@ == old(self).ledger@.remove(controller as u128)
                        && final(self).bonded@ == old(self).bonded@.remove(lold.stash as u128)
                        && final(self).payee@ == old(self).payee@.remove(lold.stash as u128)
                        && final(self).validators@ == old(self).validators@.remove(
                        lold.stash as u128,
                    ) && final(self).nominators@ == old(self).nominators@.remove(lold.stash as u128)
                } else {
                    let lnew = final(self).ledger@[controller as u128];
                    &&& final(self).ledger@ == old(self).ledger@.insert(controller as u128, lnew)
                    &&& lnew.unlocking@ == kept
                    &&& lnew.active == lold.active
                    &&& lnew.total == newtotal
                    &&& lnew.stash == lold.stash
                    &&& lnew.last_reward == lold.last_reward
                    &&& final(self).bonded@ == old(self).bonded@
                    &&& final(self).payee@ == old(self).payee@
                    &&& final(self).validators@ == old(self).validators@
                    &&& final(self).nominators@ == old(self).nominators@
                }
            },
            r is Ok ==> *final(self) == (Staking {
                ledger: final(self).ledger,
                bonded: final(self).bonded,
                payee: final(self).payee,
                validators: final(self).validators,
                nominators: final(self).nominators,
                ..*old(self)
            }),
    {
        let mut l = match self.ledger.remove(controller as u128) {
            Some(l) => l,
            None => {
                return Err(Error::NotController);
            },
        };
        let _freed = l.withdraw_unbonded(self.current_era);
        if l.active == 0 && l.unlocking.len() == 0 {
            proof {
                crate::ledger::lemma_chunk_sum_nonneg(l.unlocking@);
            }
            let stash = l.stash;
            self.bonded.remove(stash as u128);
            self.payee.remove(stash as u128);
            self.validators.remove(stash as u128);
            self.nominators.remove(stash as u128);
        } else {
            proof {
                crate::ledger::lemma_chunk_sum_nonneg(l.unlocking@);
            }
            self.ledger.insert(controller as u128, l);
            proof {
                assert(self.ledger@ =~= old(self).ledger@.insert(
                    controller as u128,
                    self.ledger@[controller as u128],
                ));
            }
        }
        Ok(())
    }
}

} // verus!
