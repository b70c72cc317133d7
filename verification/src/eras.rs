//! The era lifecycle: deciding era boundaries from session counts and the
//! forcing flag, snapshotting the elector's result into exposure records,
//! and pruning history beyond the configured depth.

use crate::ratio::Ratio;
use crate::staking::{era_key, era_key_spec, Staking, ERA_KEY_BASE};
use crate::store::Store;
use crate::types::{
    AccountId, Balance, EraIndex, Exposure, Forcing, IndividualExposure, SessionIndex,
    UnappliedSlash, ValidatorPrefs,
};
use vstd::multiset::Multiset;
use vstd::prelude::*;

verus! {

/// Remove from `s` every entry whose key is below `bound`.
pub fn prune_store_below<V>(s: &mut Store<V>, bound: u128)
    requires
        old(s).wf(),
    ensures
        final(s).wf(),
        final(s)@ =~= old(s)@.filter_keys(|k: u128| bound <= k),
{
    let ghost orig = *s;
    let ks = s.keys();
    let n = ks.len();
    let mut i: usize = 0;
    while i < n
        invariant
            s.wf(),
            n == ks@.len(),
            0 <= i <= n,
            orig.wf(),
            ks@ == orig.key_seq(),
            ks@.no_duplicates(),
            forall|k: u128| ks@.contains(k) <==> orig@.dom().contains(k),
            forall|k: u128| #[trigger]
                s@.dom().contains(k) ==> orig@.dom().contains(k) && s@[k] == orig@[k],
            forall|k: u128|
                orig@.dom().contains(k) && bound <= k ==> #[trigger] s@.dom().contains(k),
            forall|k: u128|
                orig@.dom().contains(k) && !ks@.take(i as int).contains(k) ==> #[trigger] s@.dom().contains(
                    k,
                ),
            forall|k: u128| #[trigger]
                s@.dom().contains(k) && k < bound ==> !ks@.take(i as int).contains(k),
        decreases n - i,
    {
        let ghost pre = *s;
        let k = ks[i];
        if k < bound {
            s.remove(k);
        }
        i = i + 1;
        proof {
            assert forall|k2: u128|
                orig@.dom().contains(k2) && !ks@.take(i as int).contains(k2)
                implies #[trigger] s@.dom().contains(k2) by {
                assert(!ks@.take(i - 1).contains(k2)) by {
                    if ks@.take(i - 1).contains(k2) {
                        let j = choose|j: int| 0 <= j < i - 1 && (#[trigger] ks@.take(i - 1)[j]) == k2;
                        assert(ks@.take(i as int)[j] == k2);
                    }
                }
                assert(k2 != k) by {
                    if k2 == k {
                        assert(ks@.take(i as int)[i - 1] == k);
                    }
                }
            }
            assert forall|k2: u128| #[trigger]
                s@.dom().contains(k2) && k2 < bound implies !ks@.take(i as int).contains(k2) by {
                if ks@.take(i as int).contains(k2) {
                    let j = choose|j: int| 0 <= j < i && (#[trigger] ks@.take(i as int)[j]) == k2;
                    if j < i - 1 {
                        assert(ks@.take(i - 1)[j] == k2);
                        assert(pre@.dom().contains(k2));
                    } else {
                        assert(k2 == k);
                    }
                }
            }
        }
    }
    proof {
        assert(ks@.take(n as int) =~= ks@);
        assert forall|k: u128|
            s@.dom().contains(k) == orig@.filter_keys(|k2: u128| bound <= k2).dom().contains(k) by {
            if orig@.dom().contains(k) && bound <= k {
                assert(s@.dom().contains(k));
            }
            if s@.dom().contains(k) {
                assert(orig@.dom().contains(k));
                if k < bound {
                    assert(ks@.contains(k));
                }
            }
        }
        assert(s@ =~= orig@.filter_keys(|k2: u128| bound <= k2));
    }
}

/// One winner of an election, with the backing stakes the elector assigned
/// to it.
#[derive(Clone, PartialEq, Eq, Debug)]
pub struct ElectedValidator {
    /// The winning validator's stash.
    pub who: AccountId,
    /// Its self-stake.
    pub own: Balance,
    /// The backers' stakes behind it, in the elector's order.
    pub backers: Vec<IndividualExposure>,
}

/// Saturating balance addition.
pub open spec fn sat_add_balance(a: int, b: int) -> int {
    if a + b <= u128::MAX {
        a + b
    } else {
        u128::MAX as int
    }
}

/// The saturating sum of backer stakes.
pub open spec fn backer_sum(s: Seq<IndividualExposure>) -> int
    decreases s.len(),
{
    if s.len() == 0 {
        0
    } else {
        sat_add_balance(backer_sum(s.drop_last()), s.last().value as int)
    }
}

/// Whether `idx` maps the sorted list back onto the input: a bijection
/// onto the input positions that preserves each element, with equal
/// values keeping their first-come order.
pub open spec fn reorder_witness(
    idx: Seq<int>,
    out: Seq<IndividualExposure>,
    input: Seq<IndividualExposure>,
) -> bool {
    &&& idx.len() == out.len()
    &&& out.len() == input.len()
    &&& idx.no_duplicates()
    &&& (forall|k: int| 0 <= k < idx.len() ==> 0 <= #[trigger] idx[k] < input.len())
    &&& (forall|k: int| 0 <= k < idx.len() ==> out[k] == input[#[trigger] idx[k]])
    &&& (forall|k1: int, k2: int|
        0 <= k1 < k2 < out.len() && out[k1].value == out[k2].value ==> #[trigger] idx[k1]
            < #[trigger] idx[k2])
}

/// The sorted list is the input reordered, stably: ties keep the order
/// the backers were listed in.
pub open spec fn stable_desc_reorder(
    out: Seq<IndividualExposure>,
    input: Seq<IndividualExposure>,
) -> bool {
    exists|idx: Seq<int>| #[trigger] reorder_witness(idx, out, input)
}

/// Sort backer stakes by descending value, ties keeping their first-come
/// order, by repeatedly extracting the first maximum.
pub fn sort_backers_desc(v: Vec<IndividualExposure>) -> (r: Vec<IndividualExposure>)
    ensures
        crate::types::others_sorted_desc(r@),
        r@.to_multiset() == v@.to_multiset(),
        r@.len() == v@.len(),
        forall|i: int| 0 <= i < r@.len() ==> v@.contains(#[trigger] r@[i]),
        stable_desc_reorder(r@, v@),
{
    let mut rest = v;
    let mut out: Vec<IndividualExposure> = Vec::new();
    let ghost orig = rest@;
    let ghost mut rest_idx: Seq<int> = Seq::new(rest@.len(), |i: int| i);
    let ghost mut out_idx: Seq<int> = Seq::empty();
    proof {
        out@.to_multiset_ensures();
        assert(out@.to_multiset() =~= Multiset::<IndividualExposure>::empty());
        assert(out@.to_multiset().add(rest@.to_multiset()) =~= rest@.to_multiset());
    }
    while rest.len() > 0
        invariant
            out@.to_multiset().add(rest@.to_multiset()) =~= orig.to_multiset(),
            out@.len() + rest@.len() == orig.len(),
            crate::types::others_sorted_desc(out@),
            forall|i: int, j: int|
                0 <= i < out@.len() && 0 <= j < rest@.len() ==> (#[trigger] out@[i]).value
                    >= (#[trigger] rest@[j]).value,
            forall|i: int| 0 <= i < out@.len() ==> orig.contains(#[trigger] out@[i]),
            rest_idx.len() == rest@.len(),
            out_idx.len() == out@.len(),
            forall|k: int|
                0 <= k < rest_idx.len() ==> 0 <= #[trigger] rest_idx[k] < orig.len() && rest@[k]
                    == orig[rest_idx[k]],
            forall|k: int|
                0 <= k < out_idx.len() ==> 0 <= #[trigger] out_idx[k] < orig.len() && out@[k]
                    == orig[out_idx[k]],
            forall|k1: int, k2: int|
                0 <= k1 < k2 < rest_idx.len() ==> #[trigger] rest_idx[k1] < #[trigger] rest_idx[k2],
            out_idx.no_duplicates(),
            forall|k1: int, k2: int|
                0 <= k1 < out_idx.len() && 0 <= k2 < rest_idx.len() ==> #[trigger] out_idx[k1]
                    != #[trigger] rest_idx[k2],
            forall|k1: int, k2: int|
                0 <= k1 < k2 < out@.len() && out@[k1].value == out@[k2].value
                    ==> #[trigger] out_idx[k1] < #[trigger] out_idx[k2],
            forall|ko: int, kr: int|
                0 <= ko < out@.len() && 0 <= kr < rest@.len() && (#[trigger] out@[ko]).value == (
                #[trigger] rest@[kr]).value ==> out_idx[ko] < rest_idx[kr],
        decreases rest@.len(),
    {
        let n = rest.len();
        let mut best: usize = 0;
        let mut k: usize = 1;
        while k < n
            invariant
                n == rest@.len(),
                0 <= best < k <= n,
                forall|j: int| 0 <= j < k ==> (#[trigger] rest@[j]).value <= rest@[best as int].value,
                forall|j: int| 0 <= j < best ==> (#[trigger] rest@[j]).value < rest@[best as int].value,
            decreases n - k,
        {
            if rest[k].value > rest[best].value {
                best = k;
            }
            k = k + 1;
        }
        let ghost pre_rest = rest@;
        let ghost pre_out = out@;
        let ghost pre_rest_idx = rest_idx;
        let ghost pre_out_idx = out_idx;
        let ghost c = rest_idx[best as int];
        let picked = rest.remove(best);
        out.push(picked);
        proof {
            out_idx = out_idx.push(c);
            rest_idx = rest_idx.remove(best as int);
            pre_rest.to_multiset_ensures();
            pre_out.to_multiset_ensures();
            assert(rest@.to_multiset() =~= pre_rest.to_multiset().remove(picked));
            assert(out@.to_multiset() =~= pre_out.to_multiset().insert(picked));
            assert(out@.to_multiset().add(rest@.to_multiset()) =~= orig.to_multiset());
            assert(out@.drop_last() =~= pre_out);
            assert forall|i: int| 0 <= i < out@.len() implies orig.contains(#[trigger] out@[i]) by {
                if i == out@.len() - 1 {
                    assert(orig.to_multiset().count(picked) > 0);
                    orig.to_multiset_ensures();
                }
            }
            // The picked element keeps coming from its original slot.
            assert(picked == orig[c]);
            // Earlier out entries of the same value came from earlier
            // slots, and remaining equal-valued entries sit in later ones.
            assert forall|ko: int, kr: int|
                0 <= ko < out@.len() && 0 <= kr < rest@.len() && (#[trigger] out@[ko]).value == (
                #[trigger] rest@[kr]).value implies out_idx[ko] < rest_idx[kr] by {
                let pr = if kr < best {
                    kr
                } else {
                    kr + 1
                };
                assert(rest@[kr] == pre_rest[pr]);
                assert(rest_idx[kr] == pre_rest_idx[pr]);
                if ko < out@.len() - 1 {
                    assert(out@[ko] == pre_out[ko]);
                } else {
                    // The new entry was the first maximum: equal values
                    // left in the rest stood after it.
                    assert(out@[ko] == picked);
                    if pr < best {
                        assert(pre_rest[pr].value < pre_rest[best as int].value);
                    } else {
                        assert(pre_rest_idx[best as int] < pre_rest_idx[pr]);
                    }
                }
            }
            assert forall|k1: int, k2: int|
                0 <= k1 < k2 < out@.len() && out@[k1].value == out@[k2].value
                implies #[trigger] out_idx[k1] < #[trigger] out_idx[k2] by {
                if k2 == out@.len() - 1 {
                    assert(pre_out[k1].value == pre_rest[best as int].value);
                }
            }
            assert(out_idx.no_duplicates()) by {
                assert forall|k1: int, k2: int|
                    0 <= k1 < out_idx.len() && 0 <= k2 < out_idx.len() && k1 != k2
                    implies out_idx[k1] != out_idx[k2] by {
                    if k1 < out_idx.len() - 1 && k2 < out_idx.len() - 1 {
                        assert(pre_out_idx.no_duplicates());
                    } else if k1 == out_idx.len() - 1 {
                        assert(out_idx[k2] == pre_out_idx[k2]);
                        assert(pre_out_idx[k2] != pre_rest_idx[best as int]);
                    } else {
                        assert(out_idx[k1] == pre_out_idx[k1]);
                        assert(pre_out_idx[k1] != pre_rest_idx[best as int]);
                    }
                }
            }
            assert forall|k1: int, k2: int|
                0 <= k1 < out_idx.len() && 0 <= k2 < rest_idx.len()
                implies #[trigger] out_idx[k1] != #[trigger] rest_idx[k2] by {
                let pr = if k2 < best {
                    k2
                } else {
                    k2 + 1
                };
                assert(rest_idx[k2] == pre_rest_idx[pr]);
                if k1 < out_idx.len() - 1 {
                    assert(out_idx[k1] == pre_out_idx[k1]);
                } else {
                    assert(out_idx[k1] == pre_rest_idx[best as int]);
                    assert(pre_rest_idx.no_duplicates()) by {
                        assert forall|a: int, b: int|
                            0 <= a < pre_rest_idx.len() && 0 <= b < pre_rest_idx.len() && a != b
                            implies pre_rest_idx[a] != pre_rest_idx[b] by {
                            if a < b {
                                assert(pre_rest_idx[a] < pre_rest_idx[b]);
                            } else {
                                assert(pre_rest_idx[b] < pre_rest_idx[a]);
                            }
                        }
                    }
                }
            }
        }
    }
    proof {
        assert(rest@ =~= Seq::<IndividualExposure>::empty());
        rest@.to_multiset_ensures();
        assert(rest@.to_multiset() =~= Multiset::<IndividualExposure>::empty());
        assert(out@.to_multiset() =~= orig.to_multiset());
        orig.to_multiset_ensures();
        out@.to_multiset_ensures();
        assert(reorder_witness(out_idx, out@, orig));
    }
    out
}

/// One backer row of the elector's input: a nominator, its active
/// stake, and the targets of its vote that still count.
#[derive(Clone, PartialEq, Eq, Debug)]
pub struct ElectionBacker {
    /// The nominating stash.
    pub who: AccountId,
    /// Its active stake.
    pub stake: Balance,
    /// The voted validators that still count for this vote.
    pub targets: Vec<AccountId>,
}

/// The candidate rows assembled from the validator intentions under
/// `keys`, in store order, keeping those the caller judged eligible:
/// each candidate with its active self-stake.
pub open spec fn eligible_candidates_spec(
    s: Staking,
    keys: Seq<u128>,
    eligible: Seq<AccountId>,
) -> Seq<(AccountId, Balance)>
    decreases keys.len(),
{
    if keys.len() == 0 {
        Seq::<(AccountId, Balance)>::empty()
    } else {
        let rest = eligible_candidates_spec(s, keys.drop_last(), eligible);
        let k = keys.last();
        if k <= u64::MAX as u128 && eligible.contains(k as u64) {
            rest.push((k as u64, s.slashable_balance_spec(k as u64)))
        } else {
            rest
        }
    }
}

/// The nominating stashes under `keys`, in store order, keeping those
/// the caller judged eligible.
pub open spec fn eligible_nominators_spec(
    s: Staking,
    keys: Seq<u128>,
    eligible: Seq<AccountId>,
) -> Seq<AccountId>
    decreases keys.len(),
{
    if keys.len() == 0 {
        Seq::<AccountId>::empty()
    } else {
        let rest = eligible_nominators_spec(s, keys.drop_last(), eligible);
        let k = keys.last();
        if k <= u64::MAX as u128 && eligible.contains(k as u64) {
            rest.push(k as u64)
        } else {
            rest
        }
    }
}

impl Staking {
    /// The elector's candidate list: every account offering to validate
    /// that the caller, consulting the identity service, judged
    /// eligible, with its active self-stake.
    pub fn election_candidates(&self, eligible: &Vec<AccountId>) -> (r: Vec<(AccountId, Balance)>)
        requires
            self.wf(),
        ensures
            r@ == eligible_candidates_spec(*self, self.validators.key_seq(), eligible@),
    {
        let ks = self.validators.keys();
        let n = ks.len();
        let mut r: Vec<(AccountId, Balance)> = Vec::new();
        let mut i: usize = 0;
        proof {
            assert(ks@.take(0) =~= Seq::<u128>::empty());
        }
        while i < n
            invariant
                self.wf(),
                n == ks@.len(),
                0 <= i <= n,
                ks@ == self.validators.key_seq(),
                r@ =~= eligible_candidates_spec(*self, ks@.take(i as int), eligible@),
            decreases n - i,
        {
            let k = ks[i];
            proof {
                assert(ks@.take(i + 1).drop_last() =~= ks@.take(i as int));
                assert(ks@.take(i + 1).last() == ks@[i as int]);
            }
            if k <= u64::MAX as u128 {
                let who = k as u64;
                if crate::offence::contains_account(eligible, who) {
                    let stake = self.slashable_balance_of(who);
                    r.push((who, stake));
                }
            }
            i = i + 1;
        }
        proof {
            assert(ks@.take(n as int) =~= ks@);
        }
        r
    }

    /// The elector's backer list: every nominating account the caller
    /// judged eligible, with its active stake and the targets of its
    /// vote that still count — targets that offer to validate and took
    /// no non-zero slash since the vote was cast.
    pub fn election_backers(&self, eligible: &Vec<AccountId>) -> (r: Vec<ElectionBacker>)
        requires
            self.wf(),
        ensures
            ({
                let ids = eligible_nominators_spec(*self, self.nominators.key_seq(), eligible@);
                &&& r@.len() == ids.len()
                &&& forall|j: int|
                    0 <= j < r@.len() ==> {
                        let who = ids[j];
                        let nom = self.nominators@[who as u128];
                        &&& (#[trigger] r@[j]).who == who
                        &&& r@[j].stake == self.slashable_balance_spec(who)
                        &&& r@[j].targets@ == nom.targets@.filter(
                            |t: AccountId| self.nomination_usable_spec(nom.submitted_in, t),
                        )
                    }
            }),
    {
        let ks = self.nominators.keys();
        let n = ks.len();
        let mut r: Vec<ElectionBacker> = Vec::new();
        let mut i: usize = 0;
        proof {
            assert(ks@.take(0) =~= Seq::<u128>::empty());
        }
        while i < n
            invariant
                self.wf(),
                n == ks@.len(),
                0 <= i <= n,
                ks@ == self.nominators.key_seq(),
                forall|k: u128| ks@.contains(k) <==> self.nominators@.dom().contains(k),
                ({
                    let ids = eligible_nominators_spec(*self, ks@.take(i as int), eligible@);
                    &&& r@.len() == ids.len()
                    &&& forall|j: int|
                        0 <= j < r@.len() ==> {
                            let who = ids[j];
                            let nom = self.nominators@[who as u128];
                            &&& (#[trigger] r@[j]).who == who
                            &&& r@[j].stake == self.slashable_balance_spec(who)
                            &&& r@[j].targets@ == nom.targets@.filter(
                                |t: AccountId| self.nomination_usable_spec(nom.submitted_in, t),
                            )
                        }
                }),
            decreases n - i,
        {
            let k = ks[i];
            proof {
                assert(ks@.take(i + 1).drop_last() =~= ks@.take(i as int));
                assert(ks@.take(i + 1).last() == ks@[i as int]);
                assert(ks@.contains(ks@[i as int]));
            }
            if k <= u64::MAX as u128 {
                let who = k as u64;
                if crate::offence::contains_account(eligible, who) {
                    let (submitted_in, nt) = match self.nominators.get(k) {
                        Some(nom) => (nom.submitted_in, nom.targets.len()),
                        None => {
                            proof {
                                assert(false);
                            }
                            (0, 0)
                        },
                    };
                    let mut kept: Vec<AccountId> = Vec::new();
                    let ghost targets0 = self.nominators@[k].targets@;
                    let mut t: usize = 0;
                    proof {
                        assert(targets0.take(0).filter(
                            |x: AccountId| self.nomination_usable_spec(submitted_in, x),
                        ) =~= Seq::<AccountId>::empty());
                    }
                    while t < nt
                        invariant
                            self.wf(),
                            self.nominators@.dom().contains(k),
                            targets0 == self.nominators@[k].targets@,
                            submitted_in == self.nominators@[k].submitted_in,
                            nt == targets0.len(),
                            0 <= t <= nt,
                            kept@ =~= targets0.take(t as int).filter(
                                |x: AccountId| self.nomination_usable_spec(submitted_in, x),
                            ),
                        decreases nt - t,
                    {
                        let target = match self.nominators.get(k) {
                            Some(nom) => nom.targets[t],
                            None => {
                                proof {
                                    assert(false);
                                }
                                0
                            },
                        };
                        proof {
                            assert(targets0.take(t + 1).drop_last() =~= targets0.take(t as int));
                            assert(targets0.take(t + 1) =~= targets0.take(t as int).push(target));
                            reveal_with_fuel(Seq::filter, 2);
                            assert(targets0.take(t as int).push(target).filter(
                                |x: AccountId| self.nomination_usable_spec(submitted_in, x),
                            ) == if self.nomination_usable_spec(submitted_in, target) {
                                targets0.take(t as int).filter(
                                    |x: AccountId| self.nomination_usable_spec(submitted_in, x),
                                ).push(target)
                            } else {
                                targets0.take(t as int).filter(
                                    |x: AccountId| self.nomination_usable_spec(submitted_in, x),
                                )
                            });
                        }
                        if self.nomination_usable(submitted_in, target) {
                            kept.push(target);
                        }
                        t = t + 1;
                    }
                    proof {
                        assert(targets0.take(nt as int) =~= targets0);
                    }
                    let stake = self.slashable_balance_of(who);
                    let row = ElectionBacker { who, stake, targets: kept };
                    r.push(row);
                }
            }
            i = i + 1;
        }
        proof {
            assert(ks@.take(n as int) =~= ks@);
        }
        r
    }
}

/// The saturating sum of the recorded exposure totals of `whos` for `era`.
pub open spec fn exposure_total_sum(m: Map<u128, Exposure>, era: EraIndex, whos: Seq<AccountId>) -> int
    decreases whos.len(),
{
    if whos.len() == 0 {
        0
    } else {
        let k = era_key_spec(era, whos.last());
        let t = if m.dom().contains(k) {
            m[k].total as int
        } else {
            0
        };
        sat_add_balance(exposure_total_sum(m, era, whos.drop_last()), t)
    }
}

/// The stash of each elected validator, in election order.
pub open spec fn winner_ids(winners: Seq<ElectedValidator>) -> Seq<AccountId> {
    winners.map_values(|w: ElectedValidator| w.who)
}

/// What the era snapshot records for one winner: its exposure sorted
/// largest backer first, the clipped view of it, and the preferences it
/// was elected under.
pub open spec fn winner_snapshot_rel(
    pre: Staking,
    post: Staking,
    era: EraIndex,
    w: ElectedValidator,
    max_backers: int,
) -> bool {
    let k = era_key_spec(era, w.who);
    let e = post.eras_stakers@[k];
    let c = post.eras_stakers_clipped@[k];
    &&& post.eras_stakers@.dom().contains(k)
    &&& post.eras_stakers_clipped@.dom().contains(k)
    &&& post.eras_validator_prefs@.dom().contains(k)
    &&& e.own == w.own
    &&& e.others@.to_multiset() == w.backers@.to_multiset()
    &&& crate::types::others_sorted_desc(e.others@)
    &&& stable_desc_reorder(e.others@, w.backers@)
    &&& e.total == sat_add_balance(w.own as int, backer_sum(e.others@))
    &&& c.own == w.own
    &&& c.total == e.total
    &&& c.others@ == if e.others@.len() <= max_backers {
        e.others@
    } else {
        e.others@.take(max_backers)
    }
    &&& post.eras_validator_prefs@[k].commission.parts_spec() == if pre.validators@.dom().contains(
        w.who as u128,
    ) {
        pre.validators@[w.who as u128].commission.parts_spec() as int
    } else {
        0
    }
}

/// What the era snapshot records for one carried-forward validator: a bare
/// self-stake exposure with no backers.
pub open spec fn carried_snapshot_rel(mid: Staking, post: Staking, era: EraIndex, v: AccountId) -> bool {
    let k = era_key_spec(era, v);
    let e = post.eras_stakers@[k];
    let c = post.eras_stakers_clipped@[k];
    &&& post.eras_stakers@.dom().contains(k)
    &&& post.eras_stakers_clipped@.dom().contains(k)
    &&& post.eras_validator_prefs@.dom().contains(k)
    &&& e.own == mid.slashable_balance_spec(v)
    &&& e.others@.len() == 0
    &&& e.total == e.own
    &&& c.own == e.own
    &&& c.total == e.total
    &&& c.others@.len() == 0
    &&& post.eras_validator_prefs@[k].commission.parts_spec() == if mid.validators@.dom().contains(
        v as u128,
    ) {
        mid.validators@[v as u128].commission.parts_spec() as int
    } else {
        0
    }
}

/// Whether `k` is the era key of one of the first `n` of `ids` for `era`.
pub open spec fn snapshot_key_upto(k: u128, era: EraIndex, ids: Seq<AccountId>, n: int) -> bool {
    exists|j: int| 0 <= j < n && j < ids.len() && k == era_key_spec(era, #[trigger] ids[j])
}

/// Whether `k` is the era key of one of `ids` for `era`.
pub open spec fn snapshot_key(k: u128, era: EraIndex, ids: Seq<AccountId>) -> bool {
    snapshot_key_upto(k, era, ids, ids.len() as int)
}

/// The era keys the snapshot writes.
pub open spec fn snapshot_keyset(era: EraIndex, ids: Seq<AccountId>) -> Set<u128> {
    Set::new(|k: u128| snapshot_key(k, era, ids))
}

/// The exposure sum reads only the listed keys: maps agreeing there sum
/// alike.
pub proof fn lemma_exposure_sum_agree(
    m1: Map<u128, Exposure>,
    m2: Map<u128, Exposure>,
    era: EraIndex,
    whos: Seq<AccountId>,
)
    requires
        forall|j: int|
            0 <= j < whos.len() ==> {
                let k = era_key_spec(era, #[trigger] whos[j]);
                m1.dom().contains(k) == m2.dom().contains(k) && (m1.dom().contains(k)
                    ==> m1[k].total == m2[k].total)
            },
    ensures
        exposure_total_sum(m1, era, whos) == exposure_total_sum(m2, era, whos),
    decreases whos.len(),
{
    if whos.len() > 0 {
        lemma_exposure_sum_agree(m1, m2, era, whos.drop_last());
    }
}

/// How a whole state looks after an era change, relative to the state it
/// started from.
pub open spec fn era_started_rel(
    pre: Staking,
    post: Staking,
    start_session: SessionIndex,
    winners: Seq<ElectedValidator>,
) -> bool {
    let new_era = (pre.current_era + 1) as u32;
    let depth = pre.config.history_depth;
    let keep_from = if new_era + 1 > depth {
        new_era + 1 - depth
    } else {
        0int
    };
    let comp_bound = keep_from * ERA_KEY_BASE as int;
    let ws = if new_era >= pre.config.bonding_duration {
        (new_era - pre.config.bonding_duration) as u32
    } else {
        0u32
    };
    let marker_bound = ws as int * ERA_KEY_BASE as int;
    let enough = winners.len() > 0 && winners.len() >= pre.config.minimum_validator_count;
    let surviving = new_era as int >= keep_from;
    let has_apply = pre.config.slash_defer_duration > 0 && new_era
        >= pre.config.slash_defer_duration + 1;
    let apply_key = (new_era - pre.config.slash_defer_duration - 1) as u32;
    let mid = (Staking {
        ledger: post.ledger,
        free_balance: post.free_balance,
        unapplied: post.unapplied,
        ..pre
    });
    let ids = if enough {
        winner_ids(winners)
    } else {
        pre.session_validators@
    };
    let stake_sum = exposure_total_sum(post.eras_stakers@, new_era, ids);
    &&& post.current_era == new_era
    &&& post.force_era == (if pre.force_era == Forcing::ForceNew {
        Forcing::NotForcing
    } else {
        pre.force_era
    })
    &&& (enough ==> post.session_validators@ == winner_ids(winners))
    &&& (!enough ==> post.session_validators@ == pre.session_validators@)
    &&& (has_apply ==> {
        &&& post.unapplied@ == pre.unapplied@.remove(apply_key as u128)
        &&& Staking::applied_list_rel(
            (Staking { unapplied: post.unapplied, ..pre }),
            mid,
            if pre.unapplied@.dom().contains(apply_key as u128) {
                pre.unapplied@[apply_key as u128]@
            } else {
                Seq::<UnappliedSlash>::empty()
            },
        )
    })
    &&& (!has_apply ==> post.unapplied == pre.unapplied && post.ledger == pre.ledger
        && post.free_balance == pre.free_balance)
    &&& (enough && surviving ==> forall|i: int|
        0 <= i < winners.len() ==> winner_snapshot_rel(
            pre,
            post,
            new_era,
            #[trigger] winners[i],
            pre.config.max_backers_per_validator as int,
        ))
    &&& (!enough && surviving ==> forall|i: int|
        0 <= i < pre.session_validators@.len() ==> carried_snapshot_rel(
            mid,
            post,
            new_era,
            #[trigger] pre.session_validators@[i],
        ))
    &&& post.eras_total_stake@ =~= pre.eras_total_stake@.insert(
        new_era as u128,
        stake_sum as u128,
    ).filter_keys(|k: u128| keep_from <= k)
    &&& post.eras_start_session_index@ =~= pre.eras_start_session_index@.insert(
        new_era as u128,
        start_session,
    ).filter_keys(|k: u128| keep_from <= k)
    &&& post.eras_points_total@ =~= pre.eras_points_total@.filter_keys(|k: u128| keep_from <= k)
    &&& post.eras_validator_reward@ =~= pre.eras_validator_reward@.filter_keys(
        |k: u128| keep_from <= k,
    )
    &&& post.eras_points_individual@ =~= pre.eras_points_individual@.filter_keys(
        |k: u128| comp_bound <= k,
    )
    &&& (forall|k: u128| #[trigger] post.eras_stakers@.dom().contains(k) ==> comp_bound <= k)
    &&& (forall|k: u128| #[trigger] post.eras_stakers_clipped@.dom().contains(k) ==> comp_bound <= k)
    &&& (forall|k: u128| #[trigger] post.eras_validator_prefs@.dom().contains(k) ==> comp_bound <= k)
    &&& (forall|k: u128|
        !snapshot_key(k, new_era, ids) ==> (#[trigger] post.eras_stakers@.dom().contains(k) == (
        pre.eras_stakers@.dom().contains(k) && comp_bound <= k)) && (
        post.eras_stakers@.dom().contains(k) ==> post.eras_stakers@[k] == pre.eras_stakers@[k]))
    &&& (forall|k: u128|
        !snapshot_key(k, new_era, ids) ==> (#[trigger] post.eras_stakers_clipped@.dom().contains(k)
            == (pre.eras_stakers_clipped@.dom().contains(k) && comp_bound <= k)) && (
        post.eras_stakers_clipped@.dom().contains(k) ==> post.eras_stakers_clipped@[k]
            == pre.eras_stakers_clipped@[k]))
    &&& (forall|k: u128|
        !snapshot_key(k, new_era, ids) ==> (#[trigger] post.eras_validator_prefs@.dom().contains(k)
            == (pre.eras_validator_prefs@.dom().contains(k) && comp_bound <= k)) && (
        post.eras_validator_prefs@.dom().contains(k) ==> post.eras_validator_prefs@[k]
            == pre.eras_validator_prefs@[k]))
    &&& post.validator_slash_in_era@ =~= pre.validator_slash_in_era@.filter_keys(
        |k: u128| marker_bound <= k,
    )
    &&& post.nominator_slash_in_era@ =~= pre.nominator_slash_in_era@.filter_keys(
        |k: u128| marker_bound <= k,
    )
    &&& post.spans@.dom() == pre.spans@.dom()
    &&& (forall|a: u128|
        pre.spans@.dom().contains(a) ==> crate::slashing::SlashingSpans::pruned_rel(
            pre.spans@[a],
            #[trigger] post.spans@[a],
            ws,
        ))
    &&& post == (Staking {
        current_era: post.current_era,
        force_era: post.force_era,
        session_validators: post.session_validators,
        ledger: post.ledger,
        free_balance: post.free_balance,
        unapplied: post.unapplied,
        eras_stakers: post.eras_stakers,
        eras_stakers_clipped: post.eras_stakers_clipped,
        eras_validator_prefs: post.eras_validator_prefs,
        eras_points_total: post.eras_points_total,
        eras_points_individual: post.eras_points_individual,
        eras_total_stake: post.eras_total_stake,
        eras_start_session_index: post.eras_start_session_index,
        eras_validator_reward: post.eras_validator_reward,
        validator_slash_in_era: post.validator_slash_in_era,
        nominator_slash_in_era: post.nominator_slash_in_era,
        spans: post.spans,
        ..pre
    })
}

/// The sums of backer stakes are never negative.
pub proof fn lemma_backer_sum_nonneg(s: Seq<IndividualExposure>)
    ensures
        backer_sum(s) >= 0,
    decreases s.len(),
{
    if s.len() > 0 {
        lemma_backer_sum_nonneg(s.drop_last());
    }
}

impl Staking {
    /// Record the era snapshot of one winner.
    fn snapshot_winner(&mut self, era: EraIndex, w: &ElectedValidator) -> (total: Balance)
        requires
            old(self).wf(),
            forall|i: int| 0 <= i < w.backers@.len() ==> (#[trigger] w.backers@[i]).value > 0,
        ensures
            final(self).wf(),
            winner_snapshot_rel(*old(self), *final(self), era, *w, old(
                self,
            ).config.max_backers_per_validator as int),
            final(self).eras_stakers@ == old(self).eras_stakers@.insert(
                era_key_spec(era, w.who),
                final(self).eras_stakers@[era_key_spec(era, w.who)],
            ),
            final(self).eras_stakers_clipped@ == old(self).eras_stakers_clipped@.insert(
                era_key_spec(era, w.who),
                final(self).eras_stakers_clipped@[era_key_spec(era, w.who)],
            ),
            final(self).eras_validator_prefs@ == old(self).eras_validator_prefs@.insert(
                era_key_spec(era, w.who),
                final(self).eras_validator_prefs@[era_key_spec(era, w.who)],
            ),
            *final(self) == (Staking {
                eras_stakers: final(self).eras_stakers,
                eras_stakers_clipped: final(self).eras_stakers_clipped,
                eras_validator_prefs: final(self).eras_validator_prefs,
                ..*old(self)
            }),
            total == final(self).eras_stakers@[era_key_spec(era, w.who)].total,
    {
        let k = era_key(era, w.who);
        // Copy and sort the backers, largest first.
        let nb = w.backers.len();
        let mut backers: Vec<IndividualExposure> = Vec::new();
        let mut i: usize = 0;
        while i < nb
            invariant
                nb == w.backers@.len(),
                0 <= i <= nb,
                backers@ =~= w.backers@.take(i as int),
            decreases nb - i,
        {
            backers.push(w.backers[i]);
            i = i + 1;
        }
        proof {
            assert(w.backers@.take(nb as int) =~= w.backers@);
        }
        let sorted = sort_backers_desc(backers);
        // Saturating totals.
        let mut total: Balance = w.own;
        let ns = sorted.len();
        let mut j: usize = 0;
        proof {
            lemma_backer_sum_nonneg(sorted@);
            assert(sorted@.take(0) =~= Seq::<IndividualExposure>::empty());
        }
        while j < ns
            invariant
                ns == sorted@.len(),
                0 <= j <= ns,
                total == sat_add_balance(w.own as int, backer_sum(sorted@.take(j as int))),
            decreases ns - j,
        {
            let v = sorted[j].value;
            total = if total <= u128::MAX - v {
                total + v
            } else {
                u128::MAX
            };
            j = j + 1;
            proof {
                assert(sorted@.take(j as int).drop_last() =~= sorted@.take(j - 1));
                assert(sorted@.take(j as int).last() == sorted@[j - 1]);
                lemma_backer_sum_nonneg(sorted@.take(j - 1));
                assert(backer_sum(sorted@.take(j as int)) == sat_add_balance(
                    backer_sum(sorted@.take(j - 1)),
                    sorted@[j - 1].value as int,
                ));
            }
        }
        proof {
            assert(sorted@.take(ns as int) =~= sorted@);
            lemma_backer_sum_nonneg(sorted@);
        }
        // The clipped view keeps only the largest backers.
        let maxb = self.config.max_backers_per_validator as usize;
        let keep = if ns <= maxb {
            ns
        } else {
            maxb
        };
        let mut clipped: Vec<IndividualExposure> = Vec::new();
        let mut t: usize = 0;
        while t < keep
            invariant
                keep <= sorted@.len(),
                0 <= t <= keep,
                clipped@ =~= sorted@.take(t as int),
            decreases keep - t,
        {
            clipped.push(sorted[t]);
            t = t + 1;
        }
        let full = Exposure { total, own: w.own, others: sorted };
        let clip = Exposure { total, own: w.own, others: clipped };
        proof {
            assert(full.wf(full.others@.len() as int));
            assert(clip.others@ =~= if full.others@.len() <= maxb {
                full.others@
            } else {
                full.others@.take(maxb as int)
            });
            assert(clip.wf(old(self).config.max_backers_per_validator as int));
        }
        let prefs = match self.validators.get(w.who as u128) {
            Some(p) => ValidatorPrefs { commission: p.commission },
            None => ValidatorPrefs { commission: crate::ratio::Ratio::zero() },
        };
        self.eras_stakers.insert(k, full);
        self.eras_stakers_clipped.insert(k, clip);
        self.eras_validator_prefs.insert(k, prefs);
        proof {
            assert(self.eras_stakers@ =~= old(self).eras_stakers@.insert(k, self.eras_stakers@[k]));
            assert(self.eras_stakers_clipped@ =~= old(self).eras_stakers_clipped@.insert(
                k,
                self.eras_stakers_clipped@[k],
            ));
            assert(self.eras_validator_prefs@ =~= old(self).eras_validator_prefs@.insert(
                k,
                self.eras_validator_prefs@[k],
            ));
        }
        total
    }

    /// The session the current era started in; era zero starts with session
    /// zero even before any record is written.
    pub open spec fn current_era_start_spec(self) -> int {
        if self.eras_start_session_index@.dom().contains(self.current_era as u128) {
            self.eras_start_session_index@[self.current_era as u128] as int
        } else {
            0
        }
    }

    /// Whether the era ends with the ending session: on schedule when the
    /// era's sessions have run out, always under force-new or force-always,
    /// never under force-none.
    pub open spec fn should_end_era_spec(self, ending_session: SessionIndex) -> bool {
        match self.force_era {
            Forcing::NotForcing => ending_session + 1 >= self.current_era_start_spec()
                + self.config.sessions_per_era,
            Forcing::ForceNew => true,
            Forcing::ForceAlways => true,
            Forcing::ForceNone => false,
        }
    }

    /// Decide, at the end of `ending_session`, whether a new era must
    /// start.  The caller then runs the elector and hands the winners to
    /// [`Staking::start_era`].
    pub fn on_session_end(&self, ending_session: SessionIndex) -> (r: bool)
        requires
            self.wf(),
        ensures
            r == self.should_end_era_spec(ending_session),
    {
        match self.force_era {
            Forcing::ForceNew => true,
            Forcing::ForceAlways => true,
            Forcing::ForceNone => false,
            Forcing::NotForcing => {
                let start = match self.eras_start_session_index.get(self.current_era as u128) {
                    Some(s) => *s,
                    None => 0,
                };
                let target: u64 = start as u64 + self.config.sessions_per_era as u64;
                ending_session as u64 + 1 >= target
            },
        }
    }

    /// Prune every account's span history at `window_start`.
    #[verifier::rlimit(100)]
    #[verifier::spinoff_prover]
    fn prune_all_spans(&mut self, window_start: EraIndex)
        requires
            old(self).wf(),
        ensures
            final(self).wf(),
            final(self).spans@.dom() == old(self).spans@.dom(),
            forall|a: u128|
                old(self).spans@.dom().contains(a)
                    ==> crate::slashing::SlashingSpans::pruned_rel(
                    old(self).spans@[a],
                    #[trigger] final(self).spans@[a],
                    window_start,
                ),
            *final(self) == (Staking { spans: final(self).spans, ..*old(self) }),
    {
        let ks = self.spans.keys();
        let n = ks.len();
        let mut i: usize = 0;
        while i < n
            invariant
                self.wf(),
                n == ks@.len(),
                0 <= i <= n,
                ks@.no_duplicates(),
                forall|a: u128| ks@.contains(a) <==> old(self).spans@.dom().contains(a),
                self.spans@.dom() == old(self).spans@.dom(),
                forall|a: u128|
                    old(self).spans@.dom().contains(a) && ks@.take(i as int).contains(a)
                        ==> crate::slashing::SlashingSpans::pruned_rel(
                        old(self).spans@[a],
                        #[trigger] self.spans@[a],
                        window_start,
                    ),
                forall|a: u128|
                    old(self).spans@.dom().contains(a) && !ks@.take(i as int).contains(a)
                        ==> #[trigger] self.spans@[a] == old(self).spans@[a],
                *self == (Staking { spans: self.spans, ..*old(self) }),
            decreases n - i,
        {
            let ghost pre = *self;
            let a = ks[i];
            proof {
                assert(ks@.contains(a));
            }
            let mut sp = match self.spans.remove(a) {
                Some(s) => s,
                None => {
                    proof {
                        assert(false);
                    }
                    return ;
                },
            };
            let _ = sp.prune(window_start);
            self.spans.insert(a, sp);
            i = i + 1;
            proof {
                assert(self.spans@ =~= pre.spans@.insert(a, self.spans@[a]));
                assert(self.spans@.dom() =~= old(self).spans@.dom());
                assert forall|a2: u128|
                    old(self).spans@.dom().contains(a2) && ks@.take(i as int).contains(a2)
                    implies crate::slashing::SlashingSpans::pruned_rel(
                    old(self).spans@[a2],
                    #[trigger] self.spans@[a2],
                    window_start,
                ) by {
                    if a2 != a {
                        assert(ks@.take(i - 1).contains(a2)) by {
                            let j = choose|j: int|
                                0 <= j < i && (#[trigger] ks@.take(i as int)[j]) == a2;
                            if j < i - 1 {
                                assert(ks@.take(i - 1)[j] == a2);
                            }
                        }
                    }
                }
                assert forall|a2: u128|
                    old(self).spans@.dom().contains(a2) && !ks@.take(i as int).contains(a2)
                    implies #[trigger] self.spans@[a2] == old(self).spans@[a2] by {
                    assert(a2 != a) by {
                        if a2 == a {
                            assert(ks@.take(i as int)[i - 1] == a);
                        }
                    }
                    assert(!ks@.take(i - 1).contains(a2)) by {
                        if ks@.take(i - 1).contains(a2) {
                            let j = choose|j: int|
                                0 <= j < i - 1 && (#[trigger] ks@.take(i - 1)[j]) == a2;
                            assert(ks@.take(i as int)[j] == a2);
                        }
                    }
                }
            }
        }
        proof {
            assert(ks@.take(n as int) =~= ks@);
        }
    }

    /// Start the next era.
    ///
    /// The recorded slashes whose deferral has run out are applied first.
    /// Then, with enough winners, the elector's result is snapshotted:
    /// per winner an exposure sorted largest backer first, its clipped
    /// view, and the preferences it was elected under; the winners become
    /// the session validator set.  With too few winners the previous set
    /// is carried forward on its bare self-stakes.  Records older than the
    /// history depth and slash markers and spans outside the bonding
    /// window are pruned, and a one-shot forcing flag resets.
    #[verifier::rlimit(100)]
    #[verifier::spinoff_prover]
    pub fn start_era(&mut self, start_session: SessionIndex, winners: Vec<ElectedValidator>)
        requires
            old(self).wf(),
            old(self).current_era < u32::MAX,
            winner_ids(winners@).no_duplicates(),
            forall|i: int, j: int|
                0 <= i < winners@.len() && 0 <= j < winners@[i].backers@.len() ==> (#[trigger] winners@[i].backers@[j]).value > 0,
        ensures
            final(self).wf(),
            era_started_rel(*old(self), *final(self), start_session, winners@),
    {
        let ghost pre = *old(self);
        let new_era = self.current_era + 1;
        // Apply whatever slashes have waited out their deferral.
        if self.config.slash_defer_duration > 0 && new_era as u64 >= self.config.slash_defer_duration
            as u64 + 1 {
            let apply_key = new_era - self.config.slash_defer_duration - 1;
            self.apply_deferred_slashes(apply_key);
        }
        let ghost applied = *self;
        // Snapshot the winners, or carry the previous set forward.
        let enough = winners.len() > 0 && winners.len() as u64
            >= self.config.minimum_validator_count as u64;
        let mut total_stake: Balance = 0;
        if enough {
            let n = winners.len();
            let mut ids: Vec<AccountId> = Vec::new();
            let mut i: usize = 0;
            proof {
                assert(winner_ids(winners@).take(0) =~= Seq::<AccountId>::empty());
            }
            while i < n
                invariant
                    self.wf(),
                    n == winners@.len(),
                    0 <= i <= n,
                    winner_ids(winners@).no_duplicates(),
                    forall|ii: int, j: int|
                        0 <= ii < winners@.len() && 0 <= j < winners@[ii].backers@.len() ==> (
                        #[trigger] winners@[ii].backers@[j]).value > 0,
                    ids@ =~= winner_ids(winners@).take(i as int),
                    self.config == applied.config,
                    self.validators == applied.validators,
                    forall|j: int|
                        0 <= j < i ==> winner_snapshot_rel(
                            applied,
                            *self,
                            new_era,
                            #[trigger] winners@[j],
                            applied.config.max_backers_per_validator as int,
                        ),
                    self.eras_stakers@.remove_keys(
                        snapshot_keyset(new_era, winner_ids(winners@)),
                    ) =~= applied.eras_stakers@.remove_keys(
                        snapshot_keyset(new_era, winner_ids(winners@)),
                    ),
                    self.eras_stakers_clipped@.remove_keys(
                        snapshot_keyset(new_era, winner_ids(winners@)),
                    ) =~= applied.eras_stakers_clipped@.remove_keys(
                        snapshot_keyset(new_era, winner_ids(winners@)),
                    ),
                    self.eras_validator_prefs@.remove_keys(
                        snapshot_keyset(new_era, winner_ids(winners@)),
                    ) =~= applied.eras_validator_prefs@.remove_keys(
                        snapshot_keyset(new_era, winner_ids(winners@)),
                    ),
                    total_stake == exposure_total_sum(
                        self.eras_stakers@,
                        new_era,
                        winner_ids(winners@).take(i as int),
                    ),
                    *self == (Staking {
                        eras_stakers: self.eras_stakers,
                        eras_stakers_clipped: self.eras_stakers_clipped,
                        eras_validator_prefs: self.eras_validator_prefs,
                        ..applied
                    }),
                decreases n - i,
            {
                let ghost prev = *self;
                let w = &winners[i];
                let t = self.snapshot_winner(new_era, w);
                ids.push(w.who);
                total_stake = if total_stake <= u128::MAX - t {
                    total_stake + t
                } else {
                    u128::MAX
                };
                i = i + 1;
                proof {
                    let idsseq = winner_ids(winners@);
                    assert(idsseq.take(i as int).drop_last() =~= idsseq.take(i - 1));
                    assert(idsseq.take(i as int).last() == winners@[i - 1].who);
                    lemma_exposure_sum_agree(
                        prev.eras_stakers@,
                        self.eras_stakers@,
                        new_era,
                        idsseq.take(i - 1),
                    );
                    assert forall|j: int|
                        0 <= j < i implies winner_snapshot_rel(
                        applied,
                        *self,
                        new_era,
                        #[trigger] winners@[j],
                        applied.config.max_backers_per_validator as int,
                    ) by {
                        if j < i - 1 {
                            assert(winner_snapshot_rel(
                                applied,
                                prev,
                                new_era,
                                winners@[j],
                                applied.config.max_backers_per_validator as int,
                            ));
                            assert(winners@[j].who != winners@[i - 1].who) by {
                                assert(winner_ids(winners@)[j] == winners@[j].who);
                                assert(winner_ids(winners@)[i - 1] == winners@[i - 1].who);
                            }
                        }
                    }
                }
            }
            proof {
                assert(winner_ids(winners@).take(n as int) =~= winner_ids(winners@));
            }
            self.session_validators = ids;
        } else {
            let carried = self.session_validators.len();
            let mut i: usize = 0;
            proof {
                assert(self.session_validators@.take(0) =~= Seq::<AccountId>::empty());
            }
            while i < carried
                invariant
                    self.wf(),
                    carried == applied.session_validators@.len(),
                    0 <= i <= carried,
                    self.session_validators@ == applied.session_validators@,
                    applied.session_validators@.no_duplicates(),
                    self.config == applied.config,
                    self.validators == applied.validators,
                    self.ledger == applied.ledger,
                    self.bonded == applied.bonded,
                    forall|j: int|
                        0 <= j < i ==> carried_snapshot_rel(
                            applied,
                            *self,
                            new_era,
                            #[trigger] applied.session_validators@[j],
                        ),
                    self.eras_stakers@.remove_keys(
                        snapshot_keyset(new_era, applied.session_validators@),
                    ) =~= applied.eras_stakers@.remove_keys(
                        snapshot_keyset(new_era, applied.session_validators@),
                    ),
                    self.eras_stakers_clipped@.remove_keys(
                        snapshot_keyset(new_era, applied.session_validators@),
                    ) =~= applied.eras_stakers_clipped@.remove_keys(
                        snapshot_keyset(new_era, applied.session_validators@),
                    ),
                    self.eras_validator_prefs@.remove_keys(
                        snapshot_keyset(new_era, applied.session_validators@),
                    ) =~= applied.eras_validator_prefs@.remove_keys(
                        snapshot_keyset(new_era, applied.session_validators@),
                    ),
                    total_stake == exposure_total_sum(
                        self.eras_stakers@,
                        new_era,
                        applied.session_validators@.take(i as int),
                    ),
                    *self == (Staking {
                        eras_stakers: self.eras_stakers,
                        eras_stakers_clipped: self.eras_stakers_clipped,
                        eras_validator_prefs: self.eras_validator_prefs,
                        ..applied
                    }),
                decreases carried - i,
            {
                let ghost prev = *self;
                let v = self.session_validators[i];
                let own = self.slashable_balance_of(v);
                let w = ElectedValidator { who: v, own, backers: Vec::new() };
                let t = self.snapshot_winner(new_era, &w);
                total_stake = if total_stake <= u128::MAX - t {
                    total_stake + t
                } else {
                    u128::MAX
                };
                i = i + 1;
                proof {
                    let vs = applied.session_validators@;
                    assert(vs.take(i as int).drop_last() =~= vs.take(i - 1));
                    assert(vs.take(i as int).last() == vs[i - 1]);
                    lemma_exposure_sum_agree(
                        prev.eras_stakers@,
                        self.eras_stakers@,
                        new_era,
                        vs.take(i - 1),
                    );
                    assert(w.backers@ =~= Seq::<IndividualExposure>::empty());
                    assert(self.eras_stakers@[era_key_spec(new_era, v)].others@.to_multiset()
                        =~= Seq::<IndividualExposure>::empty().to_multiset());
                    Seq::<IndividualExposure>::empty().to_multiset_ensures();
                    self.eras_stakers@[era_key_spec(new_era, v)].others@.to_multiset_ensures();
                    assert(self.eras_stakers@[era_key_spec(new_era, v)].others@.len() == 0);
                    assert(carried_snapshot_rel(applied, *self, new_era, vs[i - 1]));
                    assert forall|j: int|
                        0 <= j < i implies carried_snapshot_rel(
                        applied,
                        *self,
                        new_era,
                        #[trigger] vs[j],
                    ) by {
                        if j < i - 1 {
                            assert(carried_snapshot_rel(applied, prev, new_era, vs[j]));
                            assert(vs[j] != vs[i - 1]);
                        }
                    }
                }
            }
            proof {
                assert(applied.session_validators@.take(carried as int)
                    =~= applied.session_validators@);
            }
        }
        let ghost snap = *self;
        self.eras_total_stake.insert(new_era as u128, total_stake);
        self.eras_start_session_index.insert(new_era as u128, start_session);
        self.current_era = new_era;
        // Prune history beyond the configured depth, and slash metadata
        // outside the bonding window.
        self.prune_era_history(self.config.history_depth);
        let ws: u32 = if new_era >= self.config.bonding_duration {
            new_era - self.config.bonding_duration
        } else {
            0
        };
        proof {
            crate::staking::lemma_era_key(ws, 0);
        }
        let marker_bound: u128 = ws as u128 * ERA_KEY_BASE;
        prune_store_below(&mut self.validator_slash_in_era, marker_bound);
        prune_store_below(&mut self.nominator_slash_in_era, marker_bound);
        self.prune_all_spans(ws);
        // A one-shot forcing flag has done its work.
        if matches!(self.force_era, Forcing::ForceNew) {
            self.force_era = Forcing::NotForcing;
        }
        proof {
            let post = *self;
            let depth = pre.config.history_depth;
            let keep_from = if new_era + 1 > depth {
                new_era + 1 - depth
            } else {
                0int
            };
            let comp_bound = keep_from * ERA_KEY_BASE as int;
            let surviving = new_era as int >= keep_from;
            let ids = if enough {
                winner_ids(winners@)
            } else {
                pre.session_validators@
            };
            assert(applied == (Staking {
                ledger: post.ledger,
                free_balance: post.free_balance,
                unapplied: post.unapplied,
                ..pre
            }));
            assert(applied.session_validators@ == pre.session_validators@);
            // The era stores after pruning are the snapshot filtered.
            assert(post.eras_stakers@ =~= snap.eras_stakers@.filter_keys(
                |k: u128| comp_bound <= k,
            ));
            assert(post.eras_stakers_clipped@ =~= snap.eras_stakers_clipped@.filter_keys(
                |k: u128| comp_bound <= k,
            ));
            assert(post.eras_validator_prefs@ =~= snap.eras_validator_prefs@.filter_keys(
                |k: u128| comp_bound <= k,
            ));
            assert(post.eras_points_total@ =~= pre.eras_points_total@.filter_keys(
                |k: u128| keep_from <= k,
            ));
            assert(post.eras_validator_reward@ =~= pre.eras_validator_reward@.filter_keys(
                |k: u128| keep_from <= k,
            ));
            assert(post.eras_points_individual@ =~= pre.eras_points_individual@.filter_keys(
                |k: u128| comp_bound <= k,
            ));
            assert(post.eras_total_stake@ =~= pre.eras_total_stake@.insert(
                new_era as u128,
                total_stake,
            ).filter_keys(|k: u128| keep_from <= k));
            assert(post.eras_start_session_index@ =~= pre.eras_start_session_index@.insert(
                new_era as u128,
                start_session,
            ).filter_keys(|k: u128| keep_from <= k));
            // An era key survives pruning exactly when its era does.
            assert forall|who: AccountId| #[trigger]
                era_key_spec(new_era, who) >= 0 implies (comp_bound <= era_key_spec(new_era, who)
                <==> surviving) by {
                crate::staking::lemma_era_key(new_era, who);
                assert(era_key_spec(new_era, who) as int == new_era as int * ERA_KEY_BASE as int
                    + who as int);
            }
            // The recorded snapshot entries carry over when the era
            // survives.
            if surviving {
                if enough {
                    assert forall|i: int| 0 <= i < winners@.len() implies winner_snapshot_rel(
                        pre,
                        post,
                        new_era,
                        #[trigger] winners@[i],
                        pre.config.max_backers_per_validator as int,
                    ) by {
                        let k = era_key_spec(new_era, winners@[i].who);
                        assert(winner_snapshot_rel(
                            applied,
                            snap,
                            new_era,
                            winners@[i],
                            applied.config.max_backers_per_validator as int,
                        ));
                        assert(comp_bound <= k);
                        assert(post.eras_stakers@[k] == snap.eras_stakers@[k]);
                    }
                } else {
                    assert forall|i: int|
                        0 <= i < pre.session_validators@.len() implies carried_snapshot_rel(
                        applied,
                        post,
                        new_era,
                        #[trigger] pre.session_validators@[i],
                    ) by {
                        let k = era_key_spec(new_era, pre.session_validators@[i]);
                        assert(carried_snapshot_rel(
                            applied,
                            snap,
                            new_era,
                            pre.session_validators@[i],
                        ));
                        assert(comp_bound <= k);
                    }
                }
                // The stake sum reads the surviving snapshot entries.
                assert forall|j: int| 0 <= j < ids.len() implies {
                    let k = era_key_spec(new_era, #[trigger] ids[j]);
                    snap.eras_stakers@.dom().contains(k) == post.eras_stakers@.dom().contains(k)
                        && (snap.eras_stakers@.dom().contains(k) ==> snap.eras_stakers@[k].total
                        == post.eras_stakers@[k].total)
                } by {
                    let k = era_key_spec(new_era, ids[j]);
                    assert(comp_bound <= k);
                }
                lemma_exposure_sum_agree(snap.eras_stakers@, post.eras_stakers@, new_era, ids);
            }
            // Keys never named by the snapshot pass through it untouched.
            let snapset = snapshot_keyset(new_era, ids);
            if enough {
                assert(ids == winner_ids(winners@));
                assert(snap.eras_stakers@.remove_keys(snapset) =~= applied.eras_stakers@.remove_keys(snapset));
                assert(snap.eras_stakers_clipped@.remove_keys(snapset)
                    =~= applied.eras_stakers_clipped@.remove_keys(snapset));
                assert(snap.eras_validator_prefs@.remove_keys(snapset)
                    =~= applied.eras_validator_prefs@.remove_keys(snapset));
            } else {
                assert(ids == applied.session_validators@);
                assert(snap.eras_stakers@.remove_keys(snapset) =~= applied.eras_stakers@.remove_keys(snapset));
                assert(snap.eras_stakers_clipped@.remove_keys(snapset)
                    =~= applied.eras_stakers_clipped@.remove_keys(snapset));
                assert(snap.eras_validator_prefs@.remove_keys(snapset)
                    =~= applied.eras_validator_prefs@.remove_keys(snapset));
            }
            assert forall|k: u128| !snapshot_key(k, new_era, ids) implies (
                #[trigger] post.eras_stakers@.dom().contains(k) == (
                pre.eras_stakers@.dom().contains(k) && comp_bound <= k)) && (
                post.eras_stakers@.dom().contains(k) ==> post.eras_stakers@[k]
                    == pre.eras_stakers@[k]) by {
                assert(!snapset.contains(k));
                assert(snap.eras_stakers@.remove_keys(snapset).dom().contains(k)
                    == applied.eras_stakers@.remove_keys(snapset).dom().contains(k));
                if snap.eras_stakers@.dom().contains(k) {
                    assert(snap.eras_stakers@.remove_keys(snapset)[k] == snap.eras_stakers@[k]);
                    assert(applied.eras_stakers@.remove_keys(snapset)[k]
                        == applied.eras_stakers@[k]);
                }
            }
            assert forall|k: u128| !snapshot_key(k, new_era, ids) implies (
                #[trigger] post.eras_stakers_clipped@.dom().contains(k) == (
                pre.eras_stakers_clipped@.dom().contains(k) && comp_bound <= k)) && (
                post.eras_stakers_clipped@.dom().contains(k) ==> post.eras_stakers_clipped@[k]
                    == pre.eras_stakers_clipped@[k]) by {
                assert(!snapset.contains(k));
                assert(snap.eras_stakers_clipped@.remove_keys(snapset).dom().contains(k)
                    == applied.eras_stakers_clipped@.remove_keys(snapset).dom().contains(k));
                if snap.eras_stakers_clipped@.dom().contains(k) {
                    assert(snap.eras_stakers_clipped@.remove_keys(snapset)[k]
                        == snap.eras_stakers_clipped@[k]);
                    assert(applied.eras_stakers_clipped@.remove_keys(snapset)[k]
                        == applied.eras_stakers_clipped@[k]);
                }
            }
            assert forall|k: u128| !snapshot_key(k, new_era, ids) implies (
                #[trigger] post.eras_validator_prefs@.dom().contains(k) == (
                pre.eras_validator_prefs@.dom().contains(k) && comp_bound <= k)) && (
                post.eras_validator_prefs@.dom().contains(k) ==> post.eras_validator_prefs@[k]
                    == pre.eras_validator_prefs@[k]) by {
                assert(!snapset.contains(k));
                assert(snap.eras_validator_prefs@.remove_keys(snapset).dom().contains(k)
                    == applied.eras_validator_prefs@.remove_keys(snapset).dom().contains(k));
                if snap.eras_validator_prefs@.dom().contains(k) {
                    assert(snap.eras_validator_prefs@.remove_keys(snapset)[k]
                        == snap.eras_validator_prefs@[k]);
                    assert(applied.eras_validator_prefs@.remove_keys(snapset)[k]
                        == applied.eras_validator_prefs@[k]);
                }
            }
        }
    }

    /// Set how many eras of history are kept, pruning at once whatever the
    /// new depth no longer covers.
    pub fn set_history_depth(&mut self, depth: u32)
        requires
            old(self).wf(),
        ensures
            final(self).wf(),
            final(self).config.history_depth == depth,
            final(self).current_era == old(self).current_era,
            ({
                let keep_from = if old(self).current_era + 1 > depth {
                    old(self).current_era + 1 - depth
                } else {
                    0int
                };
                let plain = (|k: u128| keep_from <= k);
                let composite = (|k: u128| keep_from * ERA_KEY_BASE as int <= k);
                &&& final(self).eras_total_stake@ =~= old(self).eras_total_stake@.filter_keys(
                    plain,
                )
                &&& final(self).eras_start_session_index@ =~= old(
                    self,
                ).eras_start_session_index@.filter_keys(plain)
                &&& final(self).eras_validator_reward@ =~= old(
                    self,
                ).eras_validator_reward@.filter_keys(plain)
                &&& final(self).eras_points_total@ =~= old(self).eras_points_total@.filter_keys(
                    plain,
                )
                &&& final(self).eras_stakers@ =~= old(self).eras_stakers@.filter_keys(composite)
                &&& final(self).eras_stakers_clipped@ =~= old(
                    self,
                ).eras_stakers_clipped@.filter_keys(composite)
                &&& final(self).eras_validator_prefs@ =~= old(
                    self,
                ).eras_validator_prefs@.filter_keys(composite)
                &&& final(self).eras_points_individual@ =~= old(
                    self,
                ).eras_points_individual@.filter_keys(composite)
            }),
            *final(self) == (Staking {
                config: final(self).config,
                eras_total_stake: final(self).eras_total_stake,
                eras_start_session_index: final(self).eras_start_session_index,
                eras_validator_reward: final(self).eras_validator_reward,
                eras_points_total: final(self).eras_points_total,
                eras_stakers: final(self).eras_stakers,
                eras_stakers_clipped: final(self).eras_stakers_clipped,
                eras_validator_prefs: final(self).eras_validator_prefs,
                eras_points_individual: final(self).eras_points_individual,
                ..*old(self)
            }),
    {
        let mut cfg = self.config;
        cfg.history_depth = depth;
        self.config = cfg;
        self.prune_era_history(depth);
    }

    /// Remove every era record older than `depth` eras before the current
    /// one.
    fn prune_era_history(&mut self, depth: u32)
        requires
            old(self).wf(),
        ensures
            final(self).wf(),
            ({
                let keep_from = if old(self).current_era + 1 > depth {
                    old(self).current_era + 1 - depth
                } else {
                    0int
                };
                let plain = (|k: u128| keep_from <= k);
                let composite = (|k: u128| keep_from * ERA_KEY_BASE as int <= k);
                &&& final(self).eras_total_stake@ =~= old(self).eras_total_stake@.filter_keys(
                    plain,
                )
                &&& final(self).eras_start_session_index@ =~= old(
                    self,
                ).eras_start_session_index@.filter_keys(plain)
                &&& final(self).eras_validator_reward@ =~= old(
                    self,
                ).eras_validator_reward@.filter_keys(plain)
                &&& final(self).eras_points_total@ =~= old(self).eras_points_total@.filter_keys(
                    plain,
                )
                &&& final(self).eras_stakers@ =~= old(self).eras_stakers@.filter_keys(composite)
                &&& final(self).eras_stakers_clipped@ =~= old(
                    self,
                ).eras_stakers_clipped@.filter_keys(composite)
                &&& final(self).eras_validator_prefs@ =~= old(
                    self,
                ).eras_validator_prefs@.filter_keys(composite)
                &&& final(self).eras_points_individual@ =~= old(
                    self,
                ).eras_points_individual@.filter_keys(composite)
            }),
            *final(self) == (Staking {
                eras_total_stake: final(self).eras_total_stake,
                eras_start_session_index: final(self).eras_start_session_index,
                eras_validator_reward: final(self).eras_validator_reward,
                eras_points_total: final(self).eras_points_total,
                eras_stakers: final(self).eras_stakers,
                eras_stakers_clipped: final(self).eras_stakers_clipped,
                eras_validator_prefs: final(self).eras_validator_prefs,
                eras_points_individual: final(self).eras_points_individual,
                ..*old(self)
            }),
    {
        let cur64: u64 = self.current_era as u64;
        let keep_from: u64 = if cur64 + 1 > depth as u64 {
            cur64 + 1 - depth as u64
        } else {
            0
        };
        let composite_bound: u128 = keep_from as u128 * ERA_KEY_BASE;
        prune_store_below(&mut self.eras_total_stake, keep_from as u128);
        prune_store_below(&mut self.eras_start_session_index, keep_from as u128);
        prune_store_below(&mut self.eras_validator_reward, keep_from as u128);
        prune_store_below(&mut self.eras_points_total, keep_from as u128);
        prune_store_below(&mut self.eras_stakers, composite_bound);
        prune_store_below(&mut self.eras_stakers_clipped, composite_bound);
        prune_store_below(&mut self.eras_validator_prefs, composite_bound);
        prune_store_below(&mut self.eras_points_individual, composite_bound);
    }
}

} // verus!
