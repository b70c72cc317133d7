//! Role management: offering to validate, nominating, reward destinations,
//! controller changes, the permissioned-validator whitelist, forcing flags
//! and reward-point bookkeeping.

use crate::staking::{era_key, era_key_spec, Staking};
use crate::store::Store;
use crate::types::{
    AccountId, Compliance, Error, Forcing, Nominations, PermissionedValidator, RewardDestination,
    ValidatorPrefs,
};
use vstd::prelude::*;

verus! {

/// How many targets one nomination may name.
pub const MAX_NOMINATIONS: usize = 16;

/// Points clamped into the 32-bit range.
pub open spec fn sat_add_u32(a: u32, b: u32) -> u32 {
    if a + b <= u32::MAX {
        (a + b) as u32
    } else {
        u32::MAX
    }
}

/// The per-account point map after crediting each pair in order.
pub open spec fn add_points(m: Map<u128, u32>, era: u32, pairs: Seq<(AccountId, u32)>) -> Map<
    u128,
    u32,
>
    decreases pairs.len(),
{
    if pairs.len() == 0 {
        m
    } else {
        let k = era_key_spec(era, pairs.first().0);
        let prior = if m.dom().contains(k) {
            m[k]
        } else {
            0u32
        };
        add_points(m.insert(k, sat_add_u32(prior, pairs.first().1)), era, pairs.drop_first())
    }
}

/// The era total after crediting each pair in order.
pub open spec fn add_points_total(t: u32, pairs: Seq<(AccountId, u32)>) -> u32
    decreases pairs.len(),
{
    if pairs.len() == 0 {
        t
    } else {
        add_points_total(sat_add_u32(t, pairs.first().1), pairs.drop_first())
    }
}

impl Staking {
    /// Declare the intent to validate with the given preferences.
    pub fn validate(&mut self, controller: AccountId, prefs: ValidatorPrefs) -> (r: Result<
        (),
        Error,
    >)
        requires
            old(self).wf(),
        ensures
            final(self).wf(),
            r == Err::<(), Error>(Error::NotController) <==> !old(self).ledger@.dom().contains(
                controller as u128,
            ),
            r is Ok <==> old(self).ledger@.dom().contains(controller as u128),
            r is Err ==> *final(self) == *old(self),
            r is Ok ==> {
                let stash = old(self).ledger@[controller as u128].stash;
                &&& final(self).validators@ == old(self).validators@.insert(stash as u128, prefs)
                &&& final(self).nominators@ == old(self).nominators@.remove(stash as u128)
                &&& *final(self) == (Staking {
                    validators: final(self).validators,
                    nominators: final(self).nominators,
                    ..*old(self)
                })
            },
    {
        let stash = match self.ledger.get(controller as u128) {
            Some(l) => l.stash,
            None => {
                return Err(Error::NotController);
            },
        };
        self.validators.insert(stash as u128, prefs);
        self.nominators.remove(stash as u128);
        Ok(())
    }

    /// Step back from validating and nominating alike.
    pub fn chill(&mut self, controller: AccountId) -> (r: Result<(), Error>)
        requires
            old(self).wf(),
        ensures
            final(self).wf(),
            r == Err::<(), Error>(Error::NotController) <==> !old(self).ledger@.dom().contains(
                controller as u128,
            ),
            r is Ok <==> old(self).ledger@.dom().contains(controller as u128),
            r is Err ==> *final(self) == *old(self),
            r is Ok ==> {
                let stash = old(self).ledger@[controller as u128].stash;
                &&& final(self).validators@ == old(self).validators@.remove(stash as u128)
                &&& final(self).nominators@ == old(self).nominators@.remove(stash as u128)
                &&& *final(self) == (Staking {
                    validators: final(self).validators,
                    nominators: final(self).nominators,
                    ..*old(self)
                })
            },
    {
        let stash = match self.ledger.get(controller as u128) {
            Some(l) => l.stash,
            None => {
                return Err(Error::NotController);
            },
        };
        self.validators.remove(stash as u128);
        self.nominators.remove(stash as u128);
        Ok(())
    }

    /// Vote for up to [`MAX_NOMINATIONS`] validators, from the current era
    /// on.
    pub fn nominate(&mut self, controller: AccountId, targets: Vec<AccountId>) -> (r: Result<
        (),
        Error,
    >)
        requires
            old(self).wf(),
        ensures
            final(self).wf(),
            r == Err::<(), Error>(Error::NotController) <==> !old(self).ledger@.dom().contains(
                controller as u128,
            ),
            r == Err::<(), Error>(Error::EmptyTargets) <==> (old(self).ledger@.dom().contains(
                controller as u128,
            ) && targets@.len() == 0),
            r is Ok <==> (old(self).ledger@.dom().contains(controller as u128)
                && targets@.len() > 0),
            r is Err ==> *final(self) == *old(self),
            r is Ok ==> {
                let stash = old(self).ledger@[controller as u128].stash;
                let kept = if targets@.len() <= MAX_NOMINATIONS {
                    targets@
                } else {
                    targets@.take(MAX_NOMINATIONS as int)
                };
                &&& final(self).nominators@.dom().contains(stash as u128)
                &&& final(self).nominators@[stash as u128].targets@ == kept
                &&& final(self).nominators@[stash as u128].submitted_in == old(self).current_era
                &&& final(self).nominators@ == old(self).nominators@.insert(
                    stash as u128,
                    final(self).nominators@[stash as u128],
                )
                &&& final(self).validators@ == old(self).validators@.remove(stash as u128)
                &&& *final(self) == (Staking {
                    validators: final(self).validators,
                    nominators: final(self).nominators,
                    ..*old(self)
                })
            },
    {
        let stash = match self.ledger.get(controller as u128) {
            Some(l) => l.stash,
            None => {
                return Err(Error::NotController);
            },
        };
        if targets.len() == 0 {
            return Err(Error::EmptyTargets);
        }
        let mut kept = targets;
        if kept.len() > MAX_NOMINATIONS {
            kept.truncate(MAX_NOMINATIONS);
        }
        let n = Nominations { targets: kept, submitted_in: self.current_era };
        self.nominators.insert(stash as u128, n);
        self.validators.remove(stash as u128);
        Ok(())
    }

    /// Choose where this stash's rewards are deposited.
    pub fn set_payee(&mut self, controller: AccountId, dest: RewardDestination) -> (r: Result<
        (),
        Error,
    >)
        requires
            old(self).wf(),
        ensures
            final(self).wf(),
            r == Err::<(), Error>(Error::NotController) <==> !old(self).ledger@.dom().contains(
                controller as u128,
            ),
            r is Ok <==> old(self).ledger@.dom().contains(controller as u128),
            r is Err ==> *final(self) == *old(self),
            r is Ok ==> {
                let stash = old(self).ledger@[controller as u128].stash;
                &&& final(self).payee@ == old(self).payee@.insert(stash as u128, dest)
                &&& *final(self) == (Staking { payee: final(self).payee, ..*old(self) })
            },
    {
        let stash = match self.ledger.get(controller as u128) {
            Some(l) => l.stash,
            None => {
                return Err(Error::NotController);
            },
        };
        self.payee.insert(stash as u128, dest);
        Ok(())
    }

    /// Hand control of the stash's ledger to another account.
    pub fn set_controller(&mut self, stash: AccountId, new_controller: AccountId) -> (r: Result<
        (),
        Error,
    >)
        requires
            old(self).wf(),
        ensures
            final(self).wf(),
            r == Err::<(), Error>(Error::NotStash) <==> !old(self).bonded@.dom().contains(
                stash as u128,
            ),
            r == Err::<(), Error>(Error::AlreadyPaired) <==> (old(self).bonded@.dom().contains(
                stash as u128,
            ) && old(self).ledger@.dom().contains(new_controller as u128) && old(
                self,
            ).bonded@[stash as u128] != new_controller),
            r == Err::<(), Error>(Error::NotController) <==> (old(self).bonded@.dom().contains(
                stash as u128,
            ) && old(self).bonded@[stash as u128] != new_controller && !old(
                self,
            ).ledger@.dom().contains(new_controller as u128) && !old(self).ledger@.dom().contains(
                old(self).bonded@[stash as u128] as u128,
            )),
            r is Ok <==> (old(self).bonded@.dom().contains(stash as u128) && (old(
                self,
            ).bonded@[stash as u128] == new_controller || (!old(self).ledger@.dom().contains(
                new_controller as u128,
            ) && old(self).ledger@.dom().contains(old(self).bonded@[stash as u128] as u128)))),
            r is Err ==> *final(self) == *old(self),
            r is Ok ==> {
                let oldc = old(self).bonded@[stash as u128];
                if oldc == new_controller {
                    *final(self) == *old(self)
                } else {
                    &&& final(self).bonded@ == old(self).bonded@.insert(
                        stash as u128,
                        new_controller,
                    )
                    &&& final(self).ledger@ == old(self).ledger@.remove(oldc as u128).insert(
                        new_controller as u128,
                        old(self).ledger@[oldc as u128],
                    )
                    &&& *final(self) == (Staking {
                        bonded: final(self).bonded,
                        ledger: final(self).ledger,
                        ..*old(self)
                    })
                }
            },
    {
        let oldc = match self.bonded.get(stash as u128) {
            Some(c) => *c,
            None => {
                return Err(Error::NotStash);
            },
        };
        if oldc == new_controller {
            return Ok(());
        }
        if self.ledger.contains_key(new_controller as u128) {
            return Err(Error::AlreadyPaired);
        }
        let l = match self.ledger.remove(oldc as u128) {
            Some(l) => l,
            None => {
                return Err(Error::NotController);
            },
        };
        self.bonded.insert(stash as u128, new_controller);
        self.ledger.insert(new_controller as u128, l);
        Ok(())
    }

    /// Put a candidate on the permissioned-validator whitelist, pending
    /// compliance confirmation.
    pub fn add_permissioned_validator(&mut self, validator: AccountId) -> (r: Result<(), Error>)
        requires
            old(self).wf(),
        ensures
            final(self).wf(),
            r == Err::<(), Error>(Error::AlreadyPaired) <==> old(self).permissioned@.dom().contains(
                validator as u128,
            ),
            r is Ok <==> !old(self).permissioned@.dom().contains(validator as u128),
            r is Err ==> *final(self) == *old(self),
            r is Ok ==> {
                &&& final(self).permissioned@ == old(self).permissioned@.insert(
                    validator as u128,
                    PermissionedValidator { compliance: Compliance::Pending },
                )
                &&& *final(self) == (Staking {
                    permissioned: final(self).permissioned,
                    ..*old(self)
                })
            },
    {
        if self.permissioned.contains_key(validator as u128) {
            return Err(Error::AlreadyPaired);
        }
        self.permissioned.insert(
            validator as u128,
            PermissionedValidator { compliance: Compliance::Pending },
        );
        Ok(())
    }

    /// Strike a candidate from the permissioned-validator whitelist.
    pub fn remove_permissioned_validator(&mut self, validator: AccountId) -> (r: Result<(), Error>)
        requires
            old(self).wf(),
        ensures
            final(self).wf(),
            r == Err::<(), Error>(Error::NotStash) <==> !old(self).permissioned@.dom().contains(
                validator as u128,
            ),
            r is Ok <==> old(self).permissioned@.dom().contains(validator as u128),
            r is Err ==> *final(self) == *old(self),
            r is Ok ==> {
                &&& final(self).permissioned@ == old(self).permissioned@.remove(validator as u128)
                &&& *final(self) == (Staking {
                    permissioned: final(self).permissioned,
                    ..*old(self)
                })
            },
    {
        if !self.permissioned.contains_key(validator as u128) {
            return Err(Error::NotStash);
        }
        self.permissioned.remove(validator as u128);
        Ok(())
    }

    /// Force the next session to end the current era, once.
    pub fn force_new_era(&mut self)
        requires
            old(self).wf(),
        ensures
            final(self).wf(),
            *final(self) == (Staking { force_era: Forcing::ForceNew, ..*old(self) }),
    {
        self.force_era = Forcing::ForceNew;
    }

    /// Force every session to end an era until told otherwise.
    pub fn force_new_era_always(&mut self)
        requires
            old(self).wf(),
        ensures
            final(self).wf(),
            *final(self) == (Staking { force_era: Forcing::ForceAlways, ..*old(self) }),
    {
        self.force_era = Forcing::ForceAlways;
    }

    /// Stop eras from rotating until told otherwise.
    pub fn force_no_eras(&mut self)
        requires
            old(self).wf(),
        ensures
            final(self).wf(),
            *final(self) == (Staking { force_era: Forcing::ForceNone, ..*old(self) }),
    {
        self.force_era = Forcing::ForceNone;
    }

    /// Credit authorship reward points to the named accounts for the
    /// current era; repeated names accumulate.
    pub fn reward_by_ids(&mut self, pairs: Vec<(AccountId, u32)>)
        requires
            old(self).wf(),
        ensures
            final(self).wf(),
            final(self).eras_points_individual@ == add_points(
                old(self).eras_points_individual@,
                old(self).current_era,
                pairs@,
            ),
            final(self).eras_points_total@ == old(self).eras_points_total@.insert(
                old(self).current_era as u128,
                add_points_total(
                    if old(self).eras_points_total@.dom().contains(old(self).current_era as u128) {
                        old(self).eras_points_total@[old(self).current_era as u128]
                    } else {
                        0u32
                    },
                    pairs@,
                ),
            ),
            *final(self) == (Staking {
                eras_points_individual: final(self).eras_points_individual,
                eras_points_total: final(self).eras_points_total,
                ..*old(self)
            }),
    {
        let era = self.current_era;
        let mut total: u32 = match self.eras_points_total.get(era as u128) {
            Some(t) => *t,
            None => 0,
        };
        let ghost total0 = total;
        let n = pairs.len();
        let mut i: usize = 0;
        proof {
            assert(pairs@.skip(0) =~= pairs@);
        }
        while i < n
            invariant
                self.wf(),
                n == pairs@.len(),
                0 <= i <= n,
                era == old(self).current_era,
                add_points(
                    old(self).eras_points_individual@,
                    era,
                    pairs@,
                ) == add_points(self.eras_points_individual@, era, pairs@.skip(i as int)),
                add_points_total(total0, pairs@) == add_points_total(total, pairs@.skip(i as int)),
                *self == (Staking {
                    eras_points_individual: self.eras_points_individual,
                    ..*old(self)
                }),
            decreases n - i,
        {
            let ghost pre = *self;
            let ghost pretotal = total;
            let (who, pts) = pairs[i];
            let k = era_key(era, who);
            let prior: u32 = match self.eras_points_individual.get(k) {
                Some(p) => *p,
                None => 0,
            };
            let credited = if prior <= u32::MAX - pts {
                prior + pts
            } else {
                u32::MAX
            };
            self.eras_points_individual.insert(k, credited);
            total = if total <= u32::MAX - pts {
                total + pts
            } else {
                u32::MAX
            };
            i = i + 1;
            proof {
                assert(pairs@.skip(i - 1).first() == pairs@[i - 1]);
                assert(pairs@.skip(i - 1).drop_first() =~= pairs@.skip(i as int));
                assert(add_points(pre.eras_points_individual@, era, pairs@.skip(i - 1))
                    == add_points(self.eras_points_individual@, era, pairs@.skip(i as int)));
                assert(add_points_total(pretotal, pairs@.skip(i - 1)) == add_points_total(
                    total,
                    pairs@.skip(i as int),
                ));
            }
        }
        proof {
            assert(pairs@.skip(n as int) =~= Seq::<(AccountId, u32)>::empty());
        }
        self.eras_points_total.insert(era as u128, total);
    }
}

} // verus!
