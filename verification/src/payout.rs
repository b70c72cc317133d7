//! Reward payouts: a validator or a backer claims its share of a past
//! era's payout, exactly once per era, split by reward points, commission
//! and stake proportion with exact floor arithmetic.

use crate::ratio::{mul_frac, mul_frac_spec, rational_parts_spec, Ratio, BILLION};
use crate::staking::{era_key, era_key_spec, Staking};
use crate::types::{AccountId, Balance, EraIndex, Error, RewardDestination};
use vstd::prelude::*;

verus! {

impl Staking {
    /// Whether a payout for `era` may still be claimed: the era is over
    /// and not yet beyond the history depth.
    pub open spec fn era_claimable_spec(self, era: EraIndex) -> bool {
        era < self.current_era && era + self.config.history_depth >= self.current_era
    }

    /// The era's total payout: the cached figure, or the oracle's if none
    /// is cached yet.
    pub open spec fn era_payout_spec(self, era: EraIndex, oracle_payout: Balance) -> Balance {
        if self.eras_validator_reward@.dom().contains(era as u128) {
            self.eras_validator_reward@[era as u128]
        } else {
            oracle_payout
        }
    }

    /// The points credited to `who` for `era`.
    pub open spec fn era_points_of_spec(self, era: EraIndex, who: AccountId) -> u32 {
        if self.eras_points_individual@.dom().contains(era_key_spec(era, who)) {
            self.eras_points_individual@[era_key_spec(era, who)]
        } else {
            0u32
        }
    }

    /// The total points credited for `era`.
    pub open spec fn era_points_total_spec(self, era: EraIndex) -> u32 {
        if self.eras_points_total@.dom().contains(era as u128) {
            self.eras_points_total@[era as u128]
        } else {
            0u32
        }
    }

    /// The part of the era payout earned by `who`'s reward points: the
    /// exact floor of `payout * points / total_points`.
    pub open spec fn validator_share_spec(
        self,
        era: EraIndex,
        who: AccountId,
        era_payout: Balance,
    ) -> int {
        let pi = self.era_points_of_spec(era, who) as int;
        let pt = self.era_points_total_spec(era) as int;
        if pt == 0 {
            0
        } else {
            mul_frac_spec(era_payout as int, if pi <= pt {
                pi
            } else {
                pt
            }, pt)
        }
    }

    /// The commission the era's snapshot records for `who`.
    pub open spec fn era_commission_spec(self, era: EraIndex, who: AccountId) -> int {
        if self.eras_validator_prefs@.dom().contains(era_key_spec(era, who)) {
            self.eras_validator_prefs@[era_key_spec(era, who)].commission.parts_spec() as int
        } else {
            0
        }
    }

    /// What the validator itself is owed for `era`: its commission off the
    /// top, plus the stake-proportional part of the rest for its own
    /// exposure.
    pub open spec fn validator_reward_spec(
        self,
        era: EraIndex,
        who: AccountId,
        era_payout: Balance,
    ) -> int {
        let share = self.validator_share_spec(era, who, era_payout);
        let cut = mul_frac_spec(share, self.era_commission_spec(era, who), BILLION as int);
        let shared = share - cut;
        let k = era_key_spec(era, who);
        if self.eras_stakers_clipped@.dom().contains(k) {
            let e = self.eras_stakers_clipped@[k];
            cut + mul_frac_spec(
                shared,
                rational_parts_spec(e.own as int, e.total as int),
                BILLION as int,
            )
        } else {
            cut
        }
    }

    /// What the backer `stash` is owed from validator `v` for `era`: the
    /// stake-proportional part of the after-commission share for the
    /// backer's exposure entry at `index`, or nothing when the entry is
    /// not the backer's.
    pub open spec fn backer_part_spec(
        self,
        era: EraIndex,
        v: AccountId,
        index: int,
        stash: AccountId,
        era_payout: Balance,
    ) -> int {
        let share = self.validator_share_spec(era, v, era_payout);
        let cut = mul_frac_spec(share, self.era_commission_spec(era, v), BILLION as int);
        let shared = share - cut;
        let k = era_key_spec(era, v);
        if self.eras_stakers_clipped@.dom().contains(k) {
            let e = self.eras_stakers_clipped@[k];
            if 0 <= index < e.others@.len() && e.others@[index].who == stash {
                mul_frac_spec(
                    shared,
                    rational_parts_spec(e.others@[index].value as int, e.total as int),
                    BILLION as int,
                )
            } else {
                0
            }
        } else {
            0
        }
    }

    /// What a backer is owed for `era` over a list of claimed validator
    /// positions, summed saturating in order.
    pub open spec fn backer_reward_spec(
        self,
        era: EraIndex,
        stash: AccountId,
        claims: Seq<(AccountId, u32)>,
        era_payout: Balance,
    ) -> int
        decreases claims.len(),
    {
        if claims.len() == 0 {
            0
        } else {
            let rest = self.backer_reward_spec(era, stash, claims.drop_last(), era_payout);
            let part = self.backer_part_spec(
                era,
                claims.last().0,
                claims.last().1 as int,
                stash,
                era_payout,
            );
            if rest + part <= u128::MAX {
                rest + part
            } else {
                u128::MAX as int
            }
        }
    }

    /// Where a stash's rewards go; unset stashes compound into their
    /// stake.
    pub open spec fn payee_spec(self, stash: AccountId) -> RewardDestination {
        if self.payee@.dom().contains(stash as u128) {
            self.payee@[stash as u128]
        } else {
            RewardDestination::Staked
        }
    }

    /// How a payment of `amount` for `stash` lands: the destination
    /// account's balance grows, and a staked destination compounds into
    /// the ledger as far as its books allow.
    pub open spec fn payment_rel(pre: Staking, post: Staking, stash: AccountId, amount: Balance) -> bool {
        match pre.payee_spec(stash) {
            RewardDestination::Staked => {
                if pre.bonded@.dom().contains(stash as u128) && pre.ledger@.dom().contains(
                    pre.bonded@[stash as u128] as u128,
                ) {
                    let c = pre.bonded@[stash as u128] as u128;
                    let l = pre.ledger@[c];
                    let add = if amount <= u128::MAX - l.total {
                        amount as int
                    } else {
                        (u128::MAX - l.total) as int
                    };
                    &&& post.ledger@ == pre.ledger@.insert(c, post.ledger@[c])
                    &&& post.ledger@[c].active == l.active + add
                    &&& post.ledger@[c].total == l.total + add
                    &&& post.ledger@[c].unlocking@ == l.unlocking@
                    &&& post.ledger@[c].stash == l.stash
                    &&& post.ledger@[c].last_reward == l.last_reward
                    &&& post.free_balance@ == pre.free_balance@.insert(
                        stash as u128,
                        crate::offence::sat_add(pre.balance_spec(stash) as int, add) as u128,
                    )
                } else {
                    &&& post.ledger@ == pre.ledger@
                    &&& post.free_balance@ == pre.free_balance@.insert(
                        stash as u128,
                        crate::offence::sat_add(pre.balance_spec(stash) as int, amount as int) as u128,
                    )
                }
            },
            RewardDestination::Stash => {
                &&& post.ledger@ == pre.ledger@
                &&& post.free_balance@ == pre.free_balance@.insert(
                    stash as u128,
                    crate::offence::sat_add(pre.balance_spec(stash) as int, amount as int) as u128,
                )
            },
            RewardDestination::Controller => {
                let c = if pre.bonded@.dom().contains(stash as u128) {
                    pre.bonded@[stash as u128]
                } else {
                    stash
                };
                &&& post.ledger@ == pre.ledger@
                &&& post.free_balance@ == pre.free_balance@.insert(
                    c as u128,
                    crate::offence::sat_add(pre.balance_spec(c) as int, amount as int) as u128,
                )
            },
            RewardDestination::Account(a) => {
                &&& post.ledger@ == pre.ledger@
                &&& post.free_balance@ == pre.free_balance@.insert(
                    a as u128,
                    crate::offence::sat_add(pre.balance_spec(a) as int, amount as int) as u128,
                )
            },
        }
    }

    /// Deposit `amount` according to the stash's reward destination.
    fn make_payout(&mut self, stash: AccountId, amount: Balance)
        requires
            old(self).wf(),
        ensures
            final(self).wf(),
            Staking::payment_rel(*old(self), *final(self), stash, amount),
            *final(self) == (Staking {
                ledger: final(self).ledger,
                free_balance: final(self).free_balance,
                ..*old(self)
            }),
    {
        let dest = match self.payee.get(stash as u128) {
            Some(d) => *d,
            None => RewardDestination::Staked,
        };
        match dest {
            RewardDestination::Staked => {
                let c_opt = match self.bonded.get(stash as u128) {
                    Some(c) => Some(*c),
                    None => None,
                };
                match c_opt {
                    Some(c) => {
                        match self.ledger.remove(c as u128) {
                            Some(mut l) => {
                                let add = if amount <= u128::MAX - l.total {
                                    amount
                                } else {
                                    u128::MAX - l.total
                                };
                                proof {
                                    crate::ledger::lemma_chunk_sum_nonneg(l.unlocking@);
                                }
                                l.bond_extra(add);
                                self.ledger.insert(c as u128, l);
                                proof {
                                    assert(self.ledger@ =~= old(self).ledger@.insert(
                                        c as u128,
                                        self.ledger@[c as u128],
                                    ));
                                }
                                let bal = self.free_balance_of(stash);
                                let newbal = if bal <= u128::MAX - add {
                                    bal + add
                                } else {
                                    u128::MAX
                                };
                                self.free_balance.insert(stash as u128, newbal);
                            },
                            None => {
                                let bal = self.free_balance_of(stash);
                                let newbal = if bal <= u128::MAX - amount {
                                    bal + amount
                                } else {
                                    u128::MAX
                                };
                                self.free_balance.insert(stash as u128, newbal);
                            },
                        }
                    },
                    None => {
                        let bal = self.free_balance_of(stash);
                        let newbal = if bal <= u128::MAX - amount {
                            bal + amount
                        } else {
                            u128::MAX
                        };
                        self.free_balance.insert(stash as u128, newbal);
                    },
                }
            },
            RewardDestination::Stash => {
                let bal = self.free_balance_of(stash);
                let newbal = if bal <= u128::MAX - amount {
                    bal + amount
                } else {
                    u128::MAX
                };
                self.free_balance.insert(stash as u128, newbal);
            },
            RewardDestination::Controller => {
                let c = match self.bonded.get(stash as u128) {
                    Some(c) => *c,
                    None => stash,
                };
                let bal = self.free_balance_of(c);
                let newbal = if bal <= u128::MAX - amount {
                    bal + amount
                } else {
                    u128::MAX
                };
                self.free_balance.insert(c as u128, newbal);
            },
            RewardDestination::Account(a) => {
                let bal = self.free_balance_of(a);
                let newbal = if bal <= u128::MAX - amount {
                    bal + amount
                } else {
                    u128::MAX
                };
                self.free_balance.insert(a as u128, newbal);
            },
        }
    }

    /// The exact floor of `payout * points / total` for the era share.
    fn compute_share(&self, era: EraIndex, who: AccountId, era_payout: Balance) -> (r: u128)
        requires
            self.wf(),
        ensures
            r == self.validator_share_spec(era, who, era_payout),
            r <= era_payout,
    {
        let k = era_key(era, who);
        let pi: u32 = match self.eras_points_individual.get(k) {
            Some(p) => *p,
            None => 0,
        };
        let pt: u32 = match self.eras_points_total.get(era as u128) {
            Some(p) => *p,
            None => 0,
        };
        if pt == 0 {
            0
        } else {
            let m = if pi <= pt {
                pi
            } else {
                pt
            };
            mul_frac(era_payout, m as u64, pt as u64)
        }
    }

    /// The validator's reward after commission and own-stake proportion.
    fn compute_validator_reward(&self, era: EraIndex, who: AccountId, era_payout: Balance) -> (r:
        u128)
        requires
            self.wf(),
        ensures
            r == self.validator_reward_spec(era, who, era_payout),
    {
        let share = self.compute_share(era, who, era_payout);
        let k = era_key(era, who);
        let commission: Ratio = match self.eras_validator_prefs.get(k) {
            Some(p) => p.commission,
            None => Ratio::zero(),
        };
        let cut = commission.mul_balance(share);
        let shared = share - cut;
        match self.eras_stakers_clipped.get(k) {
            Some(e) => {
                let part = Ratio::from_rational(e.own, e.total);
                cut + part.mul_balance(shared)
            },
            None => cut,
        }
    }

    /// Claim the validator-side payout of `era` for the stash controlled
    /// by `controller`.  `oracle_payout` is the issuance oracle's figure
    /// for the era's total payout, consulted and cached only at the era's
    /// first claim.
    pub fn payout_validator(&mut self, controller: AccountId, era: EraIndex, oracle_payout: Balance)
        -> (r: Result<(), Error>)
        requires
            old(self).wf(),
        ensures
            final(self).wf(),
            r == Err::<(), Error>(Error::NotController) <==> !old(self).ledger@.dom().contains(
                controller as u128,
            ),
            r == Err::<(), Error>(Error::InvalidEraToReward) <==> (old(self).ledger@.dom().contains(
                controller as u128,
            ) && (!old(self).era_claimable_spec(era) || match old(
                self,
            ).ledger@[controller as u128].last_reward {
                Some(lr) => lr >= era,
                None => false,
            })),
            r is Ok <==> (old(self).ledger@.dom().contains(controller as u128) && old(
                self,
            ).era_claimable_spec(era) && match old(self).ledger@[controller as u128].last_reward {
                Some(lr) => lr < era,
                None => true,
            }),
            r is Err ==> *final(self) == *old(self),
            r is Ok ==> ({
                let stash = old(self).ledger@[controller as u128].stash;
                let payout = old(self).era_payout_spec(era, oracle_payout);
                let amount = old(self).validator_reward_spec(era, stash, payout) as u128;
                let mid = (Staking {
                    ledger: final(self).ledger,
                    free_balance: final(self).free_balance,
                    ..*old(self)
                });
                &&& final(self).eras_validator_reward@ == old(
                    self,
                ).eras_validator_reward@.insert(era as u128, payout)
                &&& final(self).ledger@.dom().contains(controller as u128)
                &&& final(self).ledger@[controller as u128].last_reward == Some(era)
                &&& final(self).ledger@[controller as u128].stash == stash
                &&& exists|mid2: Staking|
                    {
                        &&& #[trigger] Staking::payment_rel(mid2, *final(self), stash, amount)
                        &&& mid2 == (Staking { ledger: mid2.ledger, ..*old(self) })
                        &&& mid2.ledger@ == old(self).ledger@.insert(
                            controller as u128,
                            mid2.ledger@[controller as u128],
                        )
                        &&& mid2.ledger@[controller as u128] == (crate::ledger::StakingLedger {
                            last_reward: Some(era),
                            ..old(self).ledger@[controller as u128]
                        })
                    }
                &&& *final(self) == (Staking {
                    ledger: final(self).ledger,
                    free_balance: final(self).free_balance,
                    eras_validator_reward: final(self).eras_validator_reward,
                    ..*old(self)
                })
            }),
    {
        let claimable = self.era_claimable(era);
        let already = match self.ledger.get(controller as u128) {
            Some(l) => match l.last_reward {
                Some(lr) => lr >= era,
                None => false,
            },
            None => {
                return Err(Error::NotController);
            },
        };
        if !claimable || already {
            return Err(Error::InvalidEraToReward);
        }
        let mut l = match self.ledger.remove(controller as u128) {
            Some(l) => l,
            None => {
                proof {
                    assert(false);
                }
                return Err(Error::NotController);
            },
        };
        let stash = l.stash;
        l.last_reward = Some(era);
        self.ledger.insert(controller as u128, l);
        proof {
            assert(self.ledger@ =~= old(self).ledger@.insert(
                controller as u128,
                self.ledger@[controller as u128],
            ));
        }
        let payout = match self.eras_validator_reward.get(era as u128) {
            Some(p) => *p,
            None => oracle_payout,
        };
        let ghost mid2w = *self;
        let amount = self.compute_validator_reward(era, stash, payout);
        proof {
            assert(self.validator_reward_spec(era, stash, payout) == old(
                self,
            ).validator_reward_spec(era, stash, payout));
        }
        self.make_payout(stash, amount);
        proof {
            assert(mid2w == (Staking { ledger: mid2w.ledger, ..*old(self) }));
            assert(Staking::payment_rel(mid2w, *self, stash, amount));
        }
        self.eras_validator_reward.insert(era as u128, payout);
        proof {
            assert(self.eras_validator_reward@ =~= old(self).eras_validator_reward@.insert(
                era as u128,
                payout,
            ));
            assert(Staking::payment_rel(mid2w, *self, stash, amount));
            let stash_g = old(self).ledger@[controller as u128].stash;
            let payout_g = old(self).era_payout_spec(era, oracle_payout);
            let amount_g = old(self).validator_reward_spec(era, stash_g, payout_g) as u128;
            assert(stash_g == stash && payout_g == payout);
            assert(amount == amount_g);
            assert(Staking::payment_rel(mid2w, *self, stash_g, amount_g));
        }
        Ok(())
    }

    /// Whether `era` is still claimable.
    fn era_claimable(&self, era: EraIndex) -> (r: bool)
        requires
            self.wf(),
        ensures
            r == self.era_claimable_spec(era),
    {
        era < self.current_era && era as u64 + self.config.history_depth as u64
            >= self.current_era as u64
    }

    /// Claim the backer-side payout of `era` for the stash controlled by
    /// `controller`, naming for each backed validator the backer's
    /// position in its clipped exposure.
    pub fn payout_nominator(
        &mut self,
        controller: AccountId,
        era: EraIndex,
        claims: Vec<(AccountId, u32)>,
        oracle_payout: Balance,
    ) -> (r: Result<(), Error>)
        requires
            old(self).wf(),
        ensures
            final(self).wf(),
            r == Err::<(), Error>(Error::NotController) <==> !old(self).ledger@.dom().contains(
                controller as u128,
            ),
            r == Err::<(), Error>(Error::InvalidEraToReward) <==> (old(self).ledger@.dom().contains(
                controller as u128,
            ) && (!old(self).era_claimable_spec(era) || match old(
                self,
            ).ledger@[controller as u128].last_reward {
                Some(lr) => lr >= era,
                None => false,
            })),
            r is Ok <==> (old(self).ledger@.dom().contains(controller as u128) && old(
                self,
            ).era_claimable_spec(era) && match old(self).ledger@[controller as u128].last_reward {
                Some(lr) => lr < era,
                None => true,
            }),
            r is Err ==> *final(self) == *old(self),
            r is Ok ==> ({
                let stash = old(self).ledger@[controller as u128].stash;
                let payout = old(self).era_payout_spec(era, oracle_payout);
                let amount = old(self).backer_reward_spec(era, stash, claims@, payout) as u128;
                &&& final(self).eras_validator_reward@ == old(
                    self,
                ).eras_validator_reward@.insert(era as u128, payout)
                &&& final(self).ledger@.dom().contains(controller as u128)
                &&& final(self).ledger@[controller as u128].last_reward == Some(era)
                &&& final(self).ledger@[controller as u128].stash == stash
                &&& exists|mid2: Staking|
                    {
                        &&& #[trigger] Staking::payment_rel(mid2, *final(self), stash, amount)
                        &&& mid2 == (Staking { ledger: mid2.ledger, ..*old(self) })
                        &&& mid2.ledger@ == old(self).ledger@.insert(
                            controller as u128,
                            mid2.ledger@[controller as u128],
                        )
                        &&& mid2.ledger@[controller as u128] == (crate::ledger::StakingLedger {
                            last_reward: Some(era),
                            ..old(self).ledger@[controller as u128]
                        })
                    }
                &&& *final(self) == (Staking {
                    ledger: final(self).ledger,
                    free_balance: final(self).free_balance,
                    eras_validator_reward: final(self).eras_validator_reward,
                    ..*old(self)
                })
            }),
    {
        let claimable = self.era_claimable(era);
        let already = match self.ledger.get(controller as u128) {
            Some(l) => match l.last_reward {
                Some(lr) => lr >= era,
                None => false,
            },
            None => {
                return Err(Error::NotController);
            },
        };
        if !claimable || already {
            return Err(Error::InvalidEraToReward);
        }
        let mut l = match self.ledger.remove(controller as u128) {
            Some(l) => l,
            None => {
                proof {
                    assert(false);
                }
                return Err(Error::NotController);
            },
        };
        let stash = l.stash;
        l.last_reward = Some(era);
        self.ledger.insert(controller as u128, l);
        proof {
            assert(self.ledger@ =~= old(self).ledger@.insert(
                controller as u128,
                self.ledger@[controller as u128],
            ));
        }
        let payout = match self.eras_validator_reward.get(era as u128) {
            Some(p) => *p,
            None => oracle_payout,
        };
        let ghost mid2w = *self;
        // Sum the claimed parts.
        let n = claims.len();
        let mut amount: u128 = 0;
        let mut i: usize = 0;
        proof {
            assert(claims@.take(0) =~= Seq::<(AccountId, u32)>::empty());
        }
        while i < n
            invariant
                self.wf(),
                *self == mid2w,
                n == claims@.len(),
                0 <= i <= n,
                amount == self.backer_reward_spec(era, stash, claims@.take(i as int), payout),
            decreases n - i,
        {
            let (v, index) = claims[i];
            let part = self.compute_backer_part(era, v, index, stash, payout);
            amount = if amount <= u128::MAX - part {
                amount + part
            } else {
                u128::MAX
            };
            i = i + 1;
            proof {
                assert(claims@.take(i as int).drop_last() =~= claims@.take(i - 1));
                assert(claims@.take(i as int).last() == claims@[i - 1]);
            }
        }
        proof {
            assert(claims@.take(n as int) =~= claims@);
            lemma_backer_reward_agree(*self, *old(self), era, stash, claims@, payout);
        }
        self.make_payout(stash, amount);
        proof {
            assert(mid2w == (Staking { ledger: mid2w.ledger, ..*old(self) }));
            assert(Staking::payment_rel(mid2w, *self, stash, amount));
        }
        self.eras_validator_reward.insert(era as u128, payout);
        proof {
            assert(self.eras_validator_reward@ =~= old(self).eras_validator_reward@.insert(
                era as u128,
                payout,
            ));
            assert(Staking::payment_rel(mid2w, *self, stash, amount));
            let stash_g = old(self).ledger@[controller as u128].stash;
            let payout_g = old(self).era_payout_spec(era, oracle_payout);
            let amount_g = old(self).backer_reward_spec(era, stash_g, claims@, payout_g) as u128;
            assert(stash_g == stash && payout_g == payout);
            assert(amount == amount_g);
            assert(Staking::payment_rel(mid2w, *self, stash_g, amount_g));
        }
        Ok(())
    }

    /// One backer part, exactly as the spec computes it.
    fn compute_backer_part(
        &self,
        era: EraIndex,
        v: AccountId,
        index: u32,
        stash: AccountId,
        era_payout: Balance,
    ) -> (r: u128)
        requires
            self.wf(),
        ensures
            r == self.backer_part_spec(era, v, index as int, stash, era_payout),
    {
        let share = self.compute_share(era, v, era_payout);
        let k = era_key(era, v);
        let commission: Ratio = match self.eras_validator_prefs.get(k) {
            Some(p) => p.commission,
            None => Ratio::zero(),
        };
        let cut = commission.mul_balance(share);
        let shared = share - cut;
        match self.eras_stakers_clipped.get(k) {
            Some(e) => {
                if (index as usize) < e.others.len() {
                    let entry = e.others[index as usize];
                    if entry.who == stash {
                        let part = Ratio::from_rational(entry.value, e.total);
                        part.mul_balance(shared)
                    } else {
                        0
                    }
                } else {
                    0
                }
            },
            None => 0,
        }
    }
}

/// The backer reward reads only the era records, which agreeing states
/// share.
pub proof fn lemma_backer_reward_agree(
    s1: Staking,
    s2: Staking,
    era: EraIndex,
    stash: AccountId,
    claims: Seq<(AccountId, u32)>,
    era_payout: Balance,
)
    requires
        s1.eras_points_individual@ == s2.eras_points_individual@,
        s1.eras_points_total@ == s2.eras_points_total@,
        s1.eras_validator_prefs@ == s2.eras_validator_prefs@,
        s1.eras_stakers_clipped@ == s2.eras_stakers_clipped@,
    ensures
        s1.backer_reward_spec(era, stash, claims, era_payout) == s2.backer_reward_spec(
            era,
            stash,
            claims,
            era_payout,
        ),
    decreases claims.len(),
{
    if claims.len() > 0 {
        lemma_backer_reward_agree(s1, s2, era, stash, claims.drop_last(), era_payout);
    }
}

} // verus!
