//! Tearing staking state down: reaping a drained stash, forcibly
//! unstaking one, and expiring nominators whose identity checks lapsed.

use crate::ledger::{UnlockChunk, MAX_UNLOCKING_CHUNKS};
use crate::staking::{Staking, SPAN_KEY_BASE};
use crate::store::Store;
use crate::types::{AccountId, Error};
use vstd::prelude::*;

verus! {

/// Remove from `s` every entry whose key lies in `[lo, hi)`.
fn prune_store_range<V>(s: &mut Store<V>, lo: u128, hi: u128)
    requires
        old(s).wf(),
    ensures
        final(s).wf(),
        final(s)@ =~= old(s)@.filter_keys(|k: u128| !(lo <= k < hi)),
{
    let ghost orig = *s;
    let ks = s.keys();
    let n = ks.len();
    let mut i: usize = 0;
    while i < n
        invariant
            s.wf(),
            n == ks@.len(),
            0 <= i <= n,
            orig.wf(),
            ks@ == orig.key_seq(),
            ks@.no_duplicates(),
            forall|k: u128| ks@.contains(k) <==> orig@.dom().contains(k),
            forall|k: u128| #[trigger]
                s@.dom().contains(k) ==> orig@.dom().contains(k) && s@[k] == orig@[k],
            forall|k: u128|
                orig@.dom().contains(k) && !(lo <= k < hi) ==> #[trigger] s@.dom().contains(k),
            forall|k: u128|
                orig@.dom().contains(k) && !ks@.take(i as int).contains(k) ==> #[trigger] s@.dom().contains(
                    k,
                ),
            forall|k: u128| #[trigger]
                s@.dom().contains(k) && lo <= k < hi ==> !ks@.take(i as int).contains(k),
        decreases n - i,
    {
        let ghost pre = *s;
        let k = ks[i];
        if lo <= k && k < hi {
            s.remove(k);
        }
        i = i + 1;
        proof {
            assert forall|k2: u128|
                orig@.dom().contains(k2) && !ks@.take(i as int).contains(k2)
                implies #[trigger] s@.dom().contains(k2) by {
                assert(!ks@.take(i - 1).contains(k2)) by {
                    if ks@.take(i - 1).contains(k2) {
                        let j = choose|j: int|
                            0 <= j < i - 1 && (#[trigger] ks@.take(i - 1)[j]) == k2;
                        assert(ks@.take(i as int)[j] == k2);
                    }
                }
                assert(k2 != k) by {
                    if k2 == k {
                        assert(ks@.take(i as int)[i - 1] == k);
                    }
                }
            }
            assert forall|k2: u128| #[trigger]
                s@.dom().contains(k2) && lo <= k2 < hi implies !ks@.take(i as int).contains(
                k2,
            ) by {
                if ks@.take(i as int).contains(k2) {
                    let j = choose|j: int|
                        0 <= j < i && (#[trigger] ks@.take(i as int)[j]) == k2;
                    if j < i - 1 {
                        assert(ks@.take(i - 1)[j] == k2);
                        assert(pre@.dom().contains(k2));
                    } else {
                        assert(k2 == k);
                    }
                }
            }
        }
    }
    proof {
        assert(ks@.take(n as int) =~= ks@);
        assert forall|k: u128|
            s@.dom().contains(k) == orig@.filter_keys(|k2: u128| !(lo <= k2 < hi)).dom().contains(
            k,
        ) by {
            if orig@.dom().contains(k) && !(lo <= k < hi) {
                assert(s@.dom().contains(k));
            }
            if s@.dom().contains(k) {
                assert(orig@.dom().contains(k));
                if lo <= k < hi {
                    assert(ks@.contains(k));
                }
            }
        }
        assert(s@ =~= orig@.filter_keys(|k2: u128| !(lo <= k2 < hi)));
    }
}

impl Staking {
    /// How the state looks after `stash` and everything hanging off it is
    /// torn down: its pairing, ledger, payout choice, role intentions,
    /// span history and span charge records are all gone.
    pub open spec fn killed_stash_rel(pre: Staking, post: Staking, stash: AccountId) -> bool {
        let c = pre.bonded@[stash as u128];
        &&& post.bonded@ == pre.bonded@.remove(stash as u128)
        &&& post.ledger@ == pre.ledger@.remove(c as u128)
        &&& post.payee@ == pre.payee@.remove(stash as u128)
        &&& post.validators@ == pre.validators@.remove(stash as u128)
        &&& post.nominators@ == pre.nominators@.remove(stash as u128)
        &&& post.spans@ == pre.spans@.remove(stash as u128)
        &&& post.span_records@ == pre.span_records@.filter_keys(
            |k: u128| !(stash as int * SPAN_KEY_BASE as int <= k < (stash as int + 1)
                * SPAN_KEY_BASE as int),
        )
        &&& post == (Staking {
            bonded: post.bonded,
            ledger: post.ledger,
            payee: post.payee,
            validators: post.validators,
            nominators: post.nominators,
            spans: post.spans,
            span_records: post.span_records,
            ..pre
        })
    }

    /// Tear down everything recorded for a bonded stash.
    fn kill_stash(&mut self, stash: AccountId)
        requires
            old(self).wf(),
            old(self).bonded@.dom().contains(stash as u128),
        ensures
            final(self).wf(),
            Staking::killed_stash_rel(*old(self), *final(self), stash),
    {
        let c = match self.bonded.get(stash as u128) {
            Some(c) => *c,
            None => {
                proof {
                    assert(false);
                }
                return ;
            },
        };
        self.bonded.remove(stash as u128);
        self.ledger.remove(c as u128);
        self.payee.remove(stash as u128);
        self.validators.remove(stash as u128);
        self.nominators.remove(stash as u128);
        self.spans.remove(stash as u128);
        proof {
            assert((stash as u128 as int + 1) * SPAN_KEY_BASE as int <= u128::MAX as int + 1)
                by (nonlinear_arith)
                requires
                    stash <= u64::MAX,
            {}
        }
        let lo: u128 = stash as u128 * SPAN_KEY_BASE;
        let hi: u128 = (stash as u128 + 1) * SPAN_KEY_BASE;
        prune_store_range(&mut self.span_records, lo, hi);
        proof {
            assert(self.span_records@ =~= old(self).span_records@.filter_keys(
                |k2: u128| !(stash as int * SPAN_KEY_BASE as int <= k2 < (stash as int + 1)
                    * SPAN_KEY_BASE as int),
            ));
        }
    }

    /// Remove a stash whose funds are entirely gone, tearing down all its
    /// records.
    pub fn reap_stash(&mut self, stash: AccountId) -> (r: Result<(), Error>)
        requires
            old(self).wf(),
        ensures
            final(self).wf(),
            r == Err::<(), Error>(Error::FundedTarget) <==> old(self).balance_spec(stash) != 0,
            r == Err::<(), Error>(Error::NotStash) <==> (old(self).balance_spec(stash) == 0 && !old(
                self,
            ).bonded@.dom().contains(stash as u128)),
            r is Ok <==> (old(self).balance_spec(stash) == 0 && old(self).bonded@.dom().contains(
                stash as u128,
            )),
            r is Err ==> *final(self) == *old(self),
            r is Ok ==> Staking::killed_stash_rel(*old(self), *final(self), stash),
    {
        let bal = self.free_balance_of(stash);
        if bal != 0 {
            return Err(Error::FundedTarget);
        }
        if !self.bonded.contains_key(stash as u128) {
            return Err(Error::NotStash);
        }
        self.kill_stash(stash);
        Ok(())
    }

    /// Forcibly unstake a stash, tearing down all its records whatever its
    /// balance.
    pub fn force_unstake(&mut self, stash: AccountId) -> (r: Result<(), Error>)
        requires
            old(self).wf(),
        ensures
            final(self).wf(),
            r == Err::<(), Error>(Error::NotStash) <==> !old(self).bonded@.dom().contains(
                stash as u128,
            ),
            r is Ok <==> old(self).bonded@.dom().contains(stash as u128),
            r is Err ==> *final(self) == *old(self),
            r is Ok ==> Staking::killed_stash_rel(*old(self), *final(self), stash),
    {
        if !self.bonded.contains_key(stash as u128) {
            return Err(Error::NotStash);
        }
        self.kill_stash(stash);
        Ok(())
    }

    /// What expiring one nominator does: its standing vote is withdrawn,
    /// and its whole active stake is scheduled to unlock if a chunk slot
    /// is free.
    pub open spec fn expired_nominator_rel(pre: Staking, post: Staking, stash: AccountId) -> bool {
        if !pre.nominators@.dom().contains(stash as u128) {
            post == pre
        } else {
            let era = if pre.current_era + pre.config.bonding_duration <= u32::MAX {
                (pre.current_era + pre.config.bonding_duration) as u32
            } else {
                u32::MAX
            };
            &&& post.nominators@ == pre.nominators@.remove(stash as u128)
            &&& (if pre.bonded@.dom().contains(stash as u128) && pre.ledger@.dom().contains(
                pre.bonded@[stash as u128] as u128,
            ) && pre.ledger@[pre.bonded@[stash as u128] as u128].unlocking@.len()
                < MAX_UNLOCKING_CHUNKS && pre.ledger@[pre.bonded@[stash as u128] as u128].active
                > 0 {
                let c = pre.bonded@[stash as u128] as u128;
                let l = pre.ledger@[c];
                &&& post.ledger@ == pre.ledger@.insert(c, post.ledger@[c])
                &&& post.ledger@[c].active == 0
                &&& post.ledger@[c].total == l.total
                &&& post.ledger@[c].unlocking@ == l.unlocking@.push(
                    UnlockChunk { value: l.active, era },
                )
                &&& post.ledger@[c].stash == l.stash
                &&& post.ledger@[c].last_reward == l.last_reward
            } else {
                post.ledger@ == pre.ledger@
            })
            &&& post == (Staking {
                nominators: post.nominators,
                ledger: post.ledger,
                ..pre
            })
        }
    }

    /// The chained expiry of a list of nominators, in order.
    pub open spec fn expired_list_rel(pre: Staking, post: Staking, list: Seq<AccountId>) -> bool
        decreases list.len(),
    {
        if list.len() == 0 {
            post == pre
        } else {
            exists|mid: Staking|
                #[trigger] Staking::expired_nominator_rel(pre, mid, list.first())
                    && Staking::expired_list_rel(mid, post, list.drop_first())
        }
    }

    /// Withdraw the votes of nominators whose identity attestation has
    /// lapsed, as judged by the caller against the identity service, and
    /// schedule their stakes to unlock.
    pub fn validate_cdd_expiry_nominators(&mut self, expired: Vec<AccountId>)
        requires
            old(self).wf(),
        ensures
            final(self).wf(),
            Staking::expired_list_rel(*old(self), *final(self), expired@),
    {
        let n = expired.len();
        let mut i: usize = 0;
        proof {
            assert(expired@.skip(0) =~= expired@);
        }
        while i < n
            invariant
                self.wf(),
                n == expired@.len(),
                0 <= i <= n,
                forall|post: Staking|
                    Staking::expired_list_rel(*self, post, expired@.skip(i as int))
                        ==> #[trigger] Staking::expired_list_rel(*old(self), post, expired@),
            decreases n - i,
        {
            let ghost pre = *self;
            self.expire_one(expired[i]);
            i = i + 1;
            proof {
                assert(expired@.skip(i - 1).first() == expired@[i - 1]);
                assert(expired@.skip(i - 1).drop_first() =~= expired@.skip(i as int));
                assert forall|post: Staking|
                    Staking::expired_list_rel(*self, post, expired@.skip(i as int))
                    implies #[trigger] Staking::expired_list_rel(*old(self), post, expired@) by {
                    assert(Staking::expired_nominator_rel(pre, *self, expired@[i - 1]));
                    assert(Staking::expired_list_rel(pre, post, expired@.skip(i - 1)));
                }
            }
        }
        proof {
            assert(expired@.skip(n as int) =~= Seq::<AccountId>::empty());
            assert(Staking::expired_list_rel(*self, *self, expired@.skip(n as int)));
        }
    }

    /// Expire one nominator.
    fn expire_one(&mut self, stash: AccountId)
        requires
            old(self).wf(),
        ensures
            final(self).wf(),
            Staking::expired_nominator_rel(*old(self), *final(self), stash),
    {
        if !self.nominators.contains_key(stash as u128) {
            return ;
        }
        self.nominators.remove(stash as u128);
        let c = match self.bonded.get(stash as u128) {
            Some(c) => *c,
            None => {
                return ;
            },
        };
        let can = match self.ledger.get(c as u128) {
            Some(l) => l.unlocking.len() < MAX_UNLOCKING_CHUNKS && l.active > 0,
            None => false,
        };
        if !can {
            return ;
        }
        let mut l = match self.ledger.remove(c as u128) {
            Some(l) => l,
            None => {
                proof {
                    assert(false);
                }
                return ;
            },
        };
        let era = if self.current_era <= u32::MAX - self.config.bonding_duration {
            self.current_era + self.config.bonding_duration
        } else {
            u32::MAX
        };
        let active = l.active;
        l.unbond(active, era);
        self.ledger.insert(c as u128, l);
        proof {
            assert(self.ledger@ =~= old(self).ledger@.insert(c as u128, self.ledger@[c as u128]));
        }
    }
}

} // verus!
