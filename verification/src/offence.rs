//! The slash engine: offence reports come in with the offender's historical
//! exposure and a slash fraction; the engine charges each slashing span at
//! most its worst reported fraction, chills the offender, rewards the
//! reporters, and defers the withdrawal when a deferral window is
//! configured.

use crate::ledger::{slash_chunks, StakingLedger};
use crate::ratio::{mul_frac_spec, Ratio, BILLION};
use crate::slashing::{SlashingSpan, SlashingSpans, SpanRecord};
use crate::staking::{era_key, era_key_spec, span_key, span_key_spec, Staking};
use crate::types::{
    AccountId, Balance, EraIndex, Error, Exposure, Forcing, IndividualExposure, UnappliedSlash,
};
use vstd::prelude::*;

verus! {

/// An offence report: the offender, its exposure as of the offence era, and
/// who reported it.
#[derive(Clone, PartialEq, Eq, Debug)]
pub struct OffenceReport {
    /// The offending validator's stash.
    pub offender: AccountId,
    /// The offender's exposure in the era the offence happened.
    pub exposure: Exposure,
    /// The accounts that reported the offence.
    pub reporters: Vec<AccountId>,
}

/// Balance addition clamped at the numeric maximum.
pub open spec fn sat_add(a: int, b: int) -> int {
    if a + b <= u128::MAX {
        a + b
    } else {
        u128::MAX as int
    }
}

/// Balance subtraction clamped at zero.
pub open spec fn sat_sub(a: int, b: int) -> int {
    if a >= b {
        a - b
    } else {
        0
    }
}

/// The position of the span holding `era` in a span list, scanning the
/// newest span first.
pub open spec fn span_pos(s: Seq<SlashingSpan>, era: EraIndex) -> Option<int>
    decreases s.len(),
{
    if s.len() == 0 {
        None
    } else if s.first().contains(era) {
        Some(0int)
    } else {
        match span_pos(s.drop_first(), era) {
            Some(i) => Some(i + 1),
            None => None,
        }
    }
}

/// The slash amounts attributed to each backer under fraction `fparts`.
pub open spec fn backer_losses(others: Seq<IndividualExposure>, fparts: u32) -> Seq<
    (AccountId, Balance),
> {
    others.map_values(
        |o: IndividualExposure|
            (o.who, mul_frac_spec(o.value as int, fparts as int, BILLION as int) as u128),
    )
}

/// The per-era backer loss markers after recording `others` at fraction
/// `fparts`: each marker keeps the worst loss seen for its era.
pub open spec fn nom_markers_after(
    m: Map<u128, Balance>,
    era: EraIndex,
    others: Seq<IndividualExposure>,
    fparts: u32,
) -> Map<u128, Balance>
    decreases others.len(),
{
    if others.len() == 0 {
        m
    } else {
        let o = others.first();
        let k = era_key_spec(era, o.who);
        let loss = mul_frac_spec(o.value as int, fparts as int, BILLION as int);
        let prior = if m.dom().contains(k) {
            m[k] as int
        } else {
            0
        };
        let worst = if loss >= prior {
            loss
        } else {
            prior
        };
        nom_markers_after(m.insert(k, worst as u128), era, others.drop_first(), fparts)
    }
}

/// The balances after paying `each` to every reporter in turn.
pub open spec fn balances_after_pay(
    m: Map<u128, Balance>,
    reporters: Seq<AccountId>,
    each: Balance,
) -> Map<u128, Balance>
    decreases reporters.len(),
{
    if reporters.len() == 0 {
        m
    } else {
        let who = reporters.first();
        let prior = if m.dom().contains(who as u128) {
            m[who as u128] as int
        } else {
            0
        };
        balances_after_pay(
            m.insert(who as u128, sat_add(prior, each as int) as u128),
            reporters.drop_first(),
            each,
        )
    }
}

impl Staking {
    /// The first era whose slashes are still within the bonding window.
    pub open spec fn window_start_spec(self) -> EraIndex {
        if self.current_era >= self.config.bonding_duration {
            (self.current_era - self.config.bonding_duration) as u32
        } else {
            0
        }
    }

    /// Whether `stash` has a ledger a slash can reach.
    pub open spec fn slash_reaches(pre: Staking, stash: AccountId) -> bool {
        pre.bonded@.dom().contains(stash as u128) && pre.ledger@.dom().contains(
            pre.bonded@[stash as u128] as u128,
        )
    }

    /// What a slash of `value` against `stash` actually takes: the whole
    /// of it, or everything still bonded if that is less.
    pub open spec fn slash_taken(pre: Staking, stash: AccountId, value: Balance) -> int {
        if Staking::slash_reaches(pre, stash) {
            let l = pre.ledger@[pre.bonded@[stash as u128] as u128];
            if value <= l.total {
                value as int
            } else {
                l.total as int
            }
        } else {
            0
        }
    }

    /// How the ledger map looks after taking `value` from the stake behind
    /// `stash`: the active stake goes first, then the oldest chunks.
    pub open spec fn slashed_ledger_rel(
        pre: Staking,
        l1: Map<u128, StakingLedger>,
        stash: AccountId,
        value: Balance,
    ) -> bool {
        if Staking::slash_reaches(pre, stash) {
            let c = pre.bonded@[stash as u128] as u128;
            let l = pre.ledger@[c];
            let from_active = if value <= l.active {
                value as int
            } else {
                l.active as int
            };
            &&& l1 == pre.ledger@.insert(c, l1[c])
            &&& l1[c].active == l.active - from_active
            &&& l1[c].total == l.total - Staking::slash_taken(pre, stash, value)
            &&& l1[c].unlocking@ == slash_chunks(l.unlocking@, value - from_active).0
            &&& l1[c].stash == l.stash
            &&& l1[c].last_reward == l.last_reward
        } else {
            l1 == pre.ledger@
        }
    }

    /// The balances after the stash pays the slash.
    pub open spec fn balances_after_slash(
        pre: Staking,
        stash: AccountId,
        value: Balance,
    ) -> Map<u128, Balance> {
        if Staking::slash_reaches(pre, stash) {
            pre.free_balance@.insert(
                stash as u128,
                sat_sub(
                    pre.balance_spec(stash) as int,
                    Staking::slash_taken(pre, stash, value),
                ) as u128,
            )
        } else {
            pre.free_balance@
        }
    }

    /// How the ledgers and balances look after taking `value` from what
    /// stands behind `stash`, nothing else moving.
    pub open spec fn slashed_stash_rel(pre: Staking, post: Staking, stash: AccountId, value: Balance) -> bool {
        &&& Staking::slashed_ledger_rel(pre, post.ledger@, stash, value)
        &&& post.free_balance@ == Staking::balances_after_slash(pre, stash, value)
        &&& post == (Staking { ledger: post.ledger, free_balance: post.free_balance, ..pre })
    }

    /// Take `value` out of the stake behind `stash` and out of its free
    /// balance.
    fn do_slash(&mut self, stash: AccountId, value: Balance)
        requires
            old(self).wf(),
        ensures
            final(self).wf(),
            Staking::slashed_stash_rel(*old(self), *final(self), stash, value),
    {
        let c = match self.bonded.get(stash as u128) {
            Some(c) => *c,
            None => {
                return ;
            },
        };
        let mut l = match self.ledger.remove(c as u128) {
            Some(l) => l,
            None => {
                return ;
            },
        };
        let taken = l.slash(value);
        self.ledger.insert(c as u128, l);
        let bal = self.free_balance_of(stash);
        let left = if bal >= taken {
            bal - taken
        } else {
            0
        };
        self.free_balance.insert(stash as u128, left);
        proof {
            assert(self.ledger@ =~= old(self).ledger@.insert(c as u128, self.ledger@[c as u128]));
        }
    }

    /// Deposit `each` into every reporter's account, in order.
    fn pay_reporters(&mut self, reporters: &Vec<AccountId>, each: Balance)
        requires
            old(self).wf(),
        ensures
            final(self).wf(),
            final(self).free_balance@ == balances_after_pay(
                old(self).free_balance@,
                reporters@,
                each,
            ),
            *final(self) == (Staking { free_balance: final(self).free_balance, ..*old(self) }),
    {
        let n = reporters.len();
        let mut i: usize = 0;
        proof {
            assert(reporters@.skip(0) =~= reporters@);
        }
        while i < n
            invariant
                self.wf(),
                n == reporters@.len(),
                0 <= i <= n,
                balances_after_pay(old(self).free_balance@, reporters@, each)
                    == balances_after_pay(self.free_balance@, reporters@.skip(i as int), each),
                *self == (Staking { free_balance: self.free_balance, ..*old(self) }),
            decreases n - i,
        {
            let ghost pre = *self;
            let who = reporters[i];
            let bal = self.free_balance_of(who);
            let newbal = if bal <= u128::MAX - each {
                bal + each
            } else {
                u128::MAX
            };
            self.free_balance.insert(who as u128, newbal);
            i = i + 1;
            proof {
                assert(reporters@.skip(i - 1).first() == reporters@[i - 1]);
                assert(reporters@.skip(i - 1).drop_first() =~= reporters@.skip(i as int));
            }
        }
        proof {
            assert(reporters@.skip(n as int) =~= Seq::<AccountId>::empty());
        }
    }

    /// How the whole state looks after applying one recorded slash: the
    /// validator loses the recorded amount and the reporters split the
    /// recorded payout.
    pub open spec fn applied_slash_rel(pre: Staking, post: Staking, u: UnappliedSlash) -> bool {
        exists|mid: Staking|
            {
                &&& #[trigger] Staking::slashed_stash_rel(pre, mid, u.validator, u.own)
                &&& post.free_balance@ == balances_after_pay(
                    mid.free_balance@,
                    u.reporters@,
                    if u.reporters@.len() == 0 {
                        0u128
                    } else {
                        (u.payout as int / u.reporters@.len() as int) as u128
                    },
                )
                &&& post == (Staking { free_balance: post.free_balance, ..mid })
            }
    }

    /// Apply one recorded slash now.
    fn apply_one_slash(&mut self, u: &UnappliedSlash)
        requires
            old(self).wf(),
        ensures
            final(self).wf(),
            Staking::applied_slash_rel(*old(self), *final(self), *u),
            *final(self) == (Staking {
                ledger: final(self).ledger,
                free_balance: final(self).free_balance,
                ..*old(self)
            }),
    {
        self.do_slash(u.validator, u.own);
        let ghost mid = *self;
        let n = u.reporters.len();
        let each = if n == 0 {
            0
        } else {
            u.payout / (n as u128)
        };
        self.pay_reporters(&u.reporters, each);
        proof {
            assert(Staking::slashed_stash_rel(*old(self), mid, u.validator, u.own));
        }
    }

    /// The chained application of a list of recorded slashes.
    pub open spec fn applied_list_rel(pre: Staking, post: Staking, list: Seq<UnappliedSlash>) -> bool
        decreases list.len(),
    {
        if list.len() == 0 {
            post == pre
        } else {
            exists|mid: Staking|
                #[trigger] Staking::applied_slash_rel(pre, mid, list.first())
                    && Staking::applied_list_rel(mid, post, list.drop_first())
        }
    }

    /// Apply every slash recorded under `report_era`, in order, and drop
    /// the record.
    pub fn apply_deferred_slashes(&mut self, report_era: EraIndex)
        requires
            old(self).wf(),
        ensures
            final(self).wf(),
            final(self).unapplied@ == old(self).unapplied@.remove(report_era as u128),
            *final(self) == (Staking {
                ledger: final(self).ledger,
                free_balance: final(self).free_balance,
                unapplied: final(self).unapplied,
                ..*old(self)
            }),
            ({
                let list = if old(self).unapplied@.dom().contains(report_era as u128) {
                    old(self).unapplied@[report_era as u128]@
                } else {
                    Seq::<UnappliedSlash>::empty()
                };
                Staking::applied_list_rel(
                    (Staking { unapplied: final(self).unapplied, ..*old(self) }),
                    *final(self),
                    list,
                )
            }),
    {
        let list = match self.unapplied.remove(report_era as u128) {
            Some(l) => l,
            None => {
                proof {
                    let w = *self;
                    let glist = if old(self).unapplied@.dom().contains(report_era as u128) {
                        old(self).unapplied@[report_era as u128]@
                    } else {
                        Seq::<UnappliedSlash>::empty()
                    };
                    assert(glist =~= Seq::<UnappliedSlash>::empty());
                    assert(w.unapplied@ =~= old(self).unapplied@.remove(report_era as u128));
                    assert(w == (Staking { unapplied: w.unapplied, ..*old(self) }));
                    assert(Staking::applied_list_rel(w, w, glist));
                }
                return ;
            },
        };
        let ghost mid0 = *self;
        let n = list.len();
        let mut i: usize = 0;
        proof {
            assert(list@.skip(0) =~= list@);
        }
        while i < n
            invariant
                self.wf(),
                n == list@.len(),
                0 <= i <= n,
                self.unapplied == mid0.unapplied,
                *self == (Staking {
                    ledger: self.ledger,
                    free_balance: self.free_balance,
                    ..mid0
                }),
                forall|post: Staking|
                    Staking::applied_list_rel(*self, post, list@.skip(i as int))
                        ==> #[trigger] Staking::applied_list_rel(mid0, post, list@),
            decreases n - i,
        {
            let ghost pre = *self;
            self.apply_one_slash(&list[i]);
            i = i + 1;
            proof {
                assert(list@.skip(i - 1).first() == list@[i - 1]);
                assert(list@.skip(i - 1).drop_first() =~= list@.skip(i as int));
                assert forall|post: Staking|
                    Staking::applied_list_rel(*self, post, list@.skip(i as int))
                    implies #[trigger] Staking::applied_list_rel(mid0, post, list@) by {
                    assert(Staking::applied_slash_rel(pre, *self, list@[i - 1]));
                    assert(Staking::applied_list_rel(pre, post, list@.skip(i - 1)));
                }
            }
        }
        proof {
            assert(list@.skip(n as int) =~= Seq::<UnappliedSlash>::empty());
            assert(Staking::applied_list_rel(*self, *self, list@.skip(n as int)));
            assert(Staking::applied_list_rel(mid0, *self, list@));
            let glist = if old(self).unapplied@.dom().contains(report_era as u128) {
                old(self).unapplied@[report_era as u128]@
            } else {
                Seq::<UnappliedSlash>::empty()
            };
            assert(glist == list@);
            assert(Staking::applied_list_rel(mid0, *self, glist));
            assert(mid0.unapplied@ =~= old(self).unapplied@.remove(report_era as u128));
            assert(mid0 == (Staking { unapplied: mid0.unapplied, ..*old(self) }));
        }
    }

    /// Cancel the not-yet-applied slashes recorded under `era` at the given
    /// positions.  The positions must be strictly ascending and in range;
    /// the surviving entries keep their order.
    pub fn cancel_deferred_slash(&mut self, era: EraIndex, indices: Vec<u32>) -> (r: Result<
        (),
        Error,
    >)
        requires
            old(self).wf(),
        ensures
            final(self).wf(),
            ({
                let list = if old(self).unapplied@.dom().contains(era as u128) {
                    old(self).unapplied@[era as u128]@
                } else {
                    Seq::<UnappliedSlash>::empty()
                };
                &&& (r == Err::<(), Error>(Error::EmptyTargets) <==> indices@.len() == 0)
                &&& (r == Err::<(), Error>(Error::NotSortedAndUnique) <==> (indices@.len() > 0
                    && exists|i: int|
                    0 <= i < indices@.len() - 1 && !((#[trigger] indices@[i]) < indices@[i + 1])))
                &&& (r == Err::<(), Error>(Error::InvalidSlashIndex) <==> (indices@.len() > 0 && (
                forall|i: int|
                    0 <= i < indices@.len() - 1 ==> (#[trigger] indices@[i]) < indices@[i + 1])
                    && indices@.last() >= list.len()))
                &&& (r is Ok <==> (indices@.len() > 0 && (forall|i: int|
                    0 <= i < indices@.len() - 1 ==> (#[trigger] indices@[i]) < indices@[i + 1])
                    && indices@.last() < list.len()))
                &&& (r is Err ==> *final(self) == *old(self))
                &&& (r is Ok ==> {
                    &&& final(self).unapplied@ == old(self).unapplied@.insert(
                        era as u128,
                        final(self).unapplied@[era as u128],
                    )
                    &&& final(self).unapplied@[era as u128]@ == surviving(list, indices@)
                    &&& *final(self) == (Staking { unapplied: final(self).unapplied, ..*old(self) })
                })
            }),
    {
        let n = indices.len();
        if n == 0 {
            return Err(Error::EmptyTargets);
        }
        let mut i: usize = 0;
        while i + 1 < n
            invariant
                self.wf(),
                *self == *old(self),
                n == indices@.len(),
                0 <= i < n,
                forall|j: int| 0 <= j < i ==> (#[trigger] indices@[j]) < indices@[j + 1],
            decreases n - i,
        {
            if indices[i] >= indices[i + 1] {
                return Err(Error::NotSortedAndUnique);
            }
            i = i + 1;
        }
        let list_len = match self.unapplied.get(era as u128) {
            Some(l) => l.len(),
            None => 0,
        };
        if indices[n - 1] as usize >= list_len {
            return Err(Error::InvalidSlashIndex);
        }
        let mut list = match self.unapplied.remove(era as u128) {
            Some(l) => l,
            None => {
                proof {
                    assert(false);
                }
                return Err(Error::InvalidSlashIndex);
            },
        };
        let ghost orig_list = list@;
        let m = list.len();
        let mut kept: Vec<UnappliedSlash> = Vec::new();
        let mut j: usize = 0;
        proof {
            assert(orig_list.take(0) =~= Seq::<UnappliedSlash>::empty());
            assert(orig_list.skip(0) =~= orig_list);
        }
        while j < m
            invariant
                self.wf(),
                m == orig_list.len(),
                0 <= j <= m,
                n == indices@.len(),
                list@ =~= orig_list.skip(j as int),
                kept@ =~= surviving(orig_list.take(j as int), indices@),
            decreases m - j,
        {
            let item = list.remove(0);
            proof {
                assert(orig_list.skip(j as int).first() == orig_list[j as int]);
                assert(orig_list.skip(j as int).drop_first() =~= orig_list.skip(j + 1));
            }
            let mut cancelled = false;
            let mut t: usize = 0;
            while t < n
                invariant
                    n == indices@.len(),
                    0 <= t <= n,
                    cancelled == exists|x: int|
                        0 <= x < t && (#[trigger] indices@[x]) as int == j as int,
                decreases n - t,
            {
                if indices[t] as u64 == j as u64 {
                    cancelled = true;
                }
                t = t + 1;
            }
            proof {
                assert(cancelled == cancelled_at(indices@, j as int));
            }
            if !cancelled {
                kept.push(item);
            }
            j = j + 1;
            proof {
                assert(orig_list.take(j as int).drop_last() =~= orig_list.take(j - 1));
                assert(orig_list.take(j as int).last() == orig_list[j - 1]);
                assert(orig_list.take(j as int).len() == j);
            }
        }
        proof {
            assert(orig_list.take(m as int) =~= orig_list);
        }
        self.unapplied.insert(era as u128, kept);
        proof {
            assert(self.unapplied@ =~= old(self).unapplied@.insert(
                era as u128,
                self.unapplied@[era as u128],
            ));
        }
        Ok(())
    }
}

/// The first position whose span holds `era`, if any, together with the
/// rest of span-position reasoning.
pub proof fn lemma_span_pos_some(s: Seq<SlashingSpan>, era: EraIndex, i: int)
    requires
        0 <= i < s.len(),
        s[i].contains(era),
        forall|j: int| 0 <= j < i ==> !(#[trigger] s[j]).contains(era),
    ensures
        span_pos(s, era) == Some(i),
    decreases i,
{
    if i == 0 {
    } else {
        assert(!s.first().contains(era));
        lemma_span_pos_some(s.drop_first(), era, i - 1);
    }
}

/// When no span holds `era`, the scan finds nothing.
pub proof fn lemma_span_pos_none(s: Seq<SlashingSpan>, era: EraIndex)
    requires
        forall|j: int| 0 <= j < s.len() ==> !(#[trigger] s[j]).contains(era),
    ensures
        span_pos(s, era) is None,
    decreases s.len(),
{
    if s.len() > 0 {
        lemma_span_pos_none(s.drop_first(), era);
    }
}

impl Staking {
    /// The span history an offence works against: the recorded one, or a
    /// fresh history opening at the bonding window's start.
    pub open spec fn base_spans_of(pre: Staking, offender: AccountId) -> Seq<SlashingSpan> {
        if pre.spans@.dom().contains(offender as u128) {
            pre.spans@[offender as u128].spans@
        } else {
            seq![SlashingSpan { index: 0u32, start: pre.window_start_spec(), length: None }]
        }
    }

    /// The era of the offender's last non-zero slash before this report.
    pub open spec fn base_last_nonzero_of(pre: Staking, offender: AccountId) -> EraIndex {
        if pre.spans@.dom().contains(offender as u128) {
            pre.spans@[offender as u128].last_nonzero_slash
        } else {
            0u32
        }
    }

    /// What one offence report does to the whole state.
    ///
    /// A zero fraction, an invulnerable offender or an era outside the
    /// bonding window changes nothing.  A fraction no worse than one
    /// already reported for the same era changes nothing.  Otherwise the
    /// era markers are updated; and if the implied loss tops the span's
    /// recorded high-water mark, the span is charged the difference, its
    /// reporters are owed a share of the marginal pool, the span is closed
    /// and the offender chilled when the offence falls in the open span,
    /// and the charge is withdrawn at once or recorded for deferred
    /// application.
    pub open spec fn offence_step_rel(
        pre: Staking,
        post: Staking,
        r: OffenceReport,
        fparts: u32,
        slash_era: EraIndex,
    ) -> bool {
        let offender = r.offender;
        let exposure = r.exposure;
        if fparts == 0 || pre.invulnerables@.contains(offender) || slash_era > pre.current_era
            || slash_era < pre.window_start_spec() {
            post == pre
        } else {
            let vkey = era_key_spec(slash_era, offender);
            let priorp = if pre.validator_slash_in_era@.dom().contains(vkey) {
                pre.validator_slash_in_era@[vkey]
            } else {
                0u32
            };
            if priorp >= fparts {
                post == pre
            } else {
                let base_spans = Staking::base_spans_of(pre, offender);
                let base_lns = Staking::base_last_nonzero_of(pre, offender);
                match span_pos(base_spans, slash_era) {
                    None => post == pre,
                    Some(pos) => {
                        let idx = base_spans[pos].index;
                        let skey = span_key_spec(offender, idx);
                        let rec = if pre.span_records@.dom().contains(skey) {
                            pre.span_records@[skey]
                        } else {
                            SpanRecord { slashed: 0, paid_out: 0 }
                        };
                        let own_slash = mul_frac_spec(
                            exposure.own as int,
                            fparts as int,
                            BILLION as int,
                        );
                        if own_slash <= rec.slashed {
                            &&& post.validator_slash_in_era@
                                == pre.validator_slash_in_era@.insert(vkey, fparts)
                            &&& post.nominator_slash_in_era@ == nom_markers_after(
                                pre.nominator_slash_in_era@,
                                slash_era,
                                exposure.others@,
                                fparts,
                            )
                            &&& post == (Staking {
                                validator_slash_in_era: post.validator_slash_in_era,
                                nominator_slash_in_era: post.nominator_slash_in_era,
                                ..pre
                            })
                        } else {
                            let delta = (own_slash - rec.slashed) as u128;
                            let pool = sat_sub(
                                mul_frac_spec(
                                    mul_frac_spec(
                                        exposure.total as int,
                                        fparts as int,
                                        BILLION as int,
                                    ),
                                    pre.config.slash_reward_fraction.parts_spec() as int,
                                    BILLION as int,
                                ),
                                rec.paid_out as int,
                            );
                            let payout = (pool / 2) as u128;
                            let closing = pos == 0 && idx < u32::MAX;
                            &&& post.validator_slash_in_era@
                                == pre.validator_slash_in_era@.insert(vkey, fparts)
                            &&& post.nominator_slash_in_era@ == nom_markers_after(
                                pre.nominator_slash_in_era@,
                                slash_era,
                                exposure.others@,
                                fparts,
                            )
                            &&& post.span_records@ == pre.span_records@.insert(
                                skey,
                                SpanRecord {
                                    slashed: own_slash as u128,
                                    paid_out: sat_add(rec.paid_out as int, payout as int) as u128,
                                },
                            )
                            &&& post.spans@ == pre.spans@.insert(
                                offender as u128,
                                post.spans@[offender as u128],
                            )
                            &&& post.spans@[offender as u128].last_nonzero_slash == (
                            if slash_era >= base_lns {
                                slash_era
                            } else {
                                base_lns
                            })
                            &&& (if closing {
                                &&& post.spans@[offender as u128].spans@ == seq![
                                    SlashingSpan {
                                        index: (idx + 1) as u32,
                                        start: (pre.current_era + 1) as u32,
                                        length: None,
                                    },
                                    SlashingSpan {
                                        index: idx,
                                        start: base_spans[0].start,
                                        length: Some(
                                            (pre.current_era + 1 - base_spans[0].start) as u32,
                                        ),
                                    },
                                ] + base_spans.drop_first()
                                &&& post.validators@ == pre.validators@.remove(offender as u128)
                                &&& post.force_era == (if pre.force_era == Forcing::ForceAlways {
                                    Forcing::ForceAlways
                                } else {
                                    Forcing::ForceNew
                                })
                            } else {
                                &&& post.spans@[offender as u128].spans@ == base_spans
                                &&& post.validators@ == pre.validators@
                                &&& post.force_era == pre.force_era
                            })
                            &&& (if pre.config.slash_defer_duration == 0 {
                                &&& Staking::slashed_ledger_rel(pre, post.ledger@, offender, delta)
                                &&& post.free_balance@ == balances_after_pay(
                                    Staking::balances_after_slash(pre, offender, delta),
                                    r.reporters@,
                                    if r.reporters@.len() == 0 {
                                        0u128
                                    } else {
                                        (payout as int / r.reporters@.len() as int) as u128
                                    },
                                )
                                &&& post.unapplied@ == pre.unapplied@
                                &&& post == (Staking {
                                    validator_slash_in_era: post.validator_slash_in_era,
                                    nominator_slash_in_era: post.nominator_slash_in_era,
                                    span_records: post.span_records,
                                    spans: post.spans,
                                    validators: post.validators,
                                    force_era: post.force_era,
                                    ledger: post.ledger,
                                    free_balance: post.free_balance,
                                    ..pre
                                })
                            } else {
                                let rkey = pre.current_era as u128;
                                let oldlist = if pre.unapplied@.dom().contains(rkey) {
                                    pre.unapplied@[rkey]@
                                } else {
                                    Seq::<UnappliedSlash>::empty()
                                };
                                let newlist = post.unapplied@[rkey]@;
                                &&& post.unapplied@ == pre.unapplied@.insert(
                                    rkey,
                                    post.unapplied@[rkey],
                                )
                                &&& newlist.len() == oldlist.len() + 1
                                &&& newlist.take(oldlist.len() as int) == oldlist
                                &&& newlist.last().validator == offender
                                &&& newlist.last().own == delta
                                &&& newlist.last().others@ == backer_losses(
                                    exposure.others@,
                                    fparts,
                                )
                                &&& newlist.last().reporters@ == r.reporters@
                                &&& newlist.last().payout == payout
                                &&& post == (Staking {
                                    validator_slash_in_era: post.validator_slash_in_era,
                                    nominator_slash_in_era: post.nominator_slash_in_era,
                                    span_records: post.span_records,
                                    spans: post.spans,
                                    validators: post.validators,
                                    force_era: post.force_era,
                                    unapplied: post.unapplied,
                                    ..pre
                                })
                            })
                        }
                    },
                }
            }
        }
    }
}

/// Whether `who` appears in the account list.
pub(crate) fn contains_account(v: &Vec<AccountId>, who: AccountId) -> (r: bool)
    ensures
        r == v@.contains(who),
{
    let n = v.len();
    let mut t: usize = 0;
    while t < n
        invariant
            n == v@.len(),
            0 <= t <= n,
            forall|j: int| 0 <= j < t ==> (#[trigger] v@[j]) != who,
        decreases n - t,
    {
        if v[t] == who {
            return true;
        }
        t = t + 1;
    }
    false
}

/// The chained effect of a batch of offence reports, processed in order,
/// all naming the same offence era.
pub open spec fn offence_chain_rel(
    pre: Staking,
    post: Staking,
    reports: Seq<OffenceReport>,
    fracs: Seq<Ratio>,
    slash_era: EraIndex,
) -> bool
    decreases reports.len(),
{
    if reports.len() == 0 {
        post == pre
    } else {
        exists|mid: Staking|
            #[trigger] Staking::offence_step_rel(
                pre,
                mid,
                reports.first(),
                fracs.first().parts_spec(),
                slash_era,
            ) && offence_chain_rel(mid, post, reports.drop_first(), fracs.drop_first(), slash_era)
    }
}

impl Staking {

    /// Record each backer's implied loss for the era, keeping the worst
    /// marker per backer.
    fn mark_backer_losses(&mut self, era: EraIndex, others: &Vec<IndividualExposure>, frac: Ratio)
        requires
            old(self).wf(),
        ensures
            final(self).wf(),
            final(self).nominator_slash_in_era@ == nom_markers_after(
                old(self).nominator_slash_in_era@,
                era,
                others@,
                frac.parts_spec(),
            ),
            *final(self) == (Staking {
                nominator_slash_in_era: final(self).nominator_slash_in_era,
                ..*old(self)
            }),
    {
        let ghost fparts = frac.parts_spec();
        let ghost mark0 = self.nominator_slash_in_era@;
        let no = others.len();
        let mut i: usize = 0;
        proof {
            assert(others@.skip(0) =~= others@);
        }
        while i < no
            invariant
                self.wf(),
                no == others@.len(),
                0 <= i <= no,
                frac.parts_spec() == fparts,
                nom_markers_after(mark0, era, others@, fparts as u32) == nom_markers_after(
                    self.nominator_slash_in_era@,
                    era,
                    others@.skip(i as int),
                    fparts as u32,
                ),
                *self == (Staking {
                    nominator_slash_in_era: self.nominator_slash_in_era,
                    ..*old(self)
                }),
            decreases no - i,
        {
            let o = others[i];
            let k = era_key(era, o.who);
            let loss = frac.mul_balance(o.value);
            let prior: u128 = match self.nominator_slash_in_era.get(k) {
                Some(p) => *p,
                None => 0,
            };
            let worst = if loss >= prior {
                loss
            } else {
                prior
            };
            self.nominator_slash_in_era.insert(k, worst);
            i = i + 1;
            proof {
                assert(others@.skip(i - 1).first() == others@[i - 1]);
                assert(others@.skip(i - 1).drop_first() =~= others@.skip(i as int));
            }
        }
        proof {
            assert(others@.skip(no as int) =~= Seq::<IndividualExposure>::empty());
        }
    }

    /// Record one computed slash for deferred application under the
    /// current era.
    fn record_deferred(
        &mut self,
        offender: AccountId,
        delta: Balance,
        payout: Balance,
        others: &Vec<IndividualExposure>,
        frac: Ratio,
        reporters: &Vec<AccountId>,
    )
        requires
            old(self).wf(),
        ensures
            final(self).wf(),
            ({
                let rkey = old(self).current_era as u128;
                let oldlist = if old(self).unapplied@.dom().contains(rkey) {
                    old(self).unapplied@[rkey]@
                } else {
                    Seq::<UnappliedSlash>::empty()
                };
                let newlist = final(self).unapplied@[rkey]@;
                &&& final(self).unapplied@ == old(self).unapplied@.insert(
                    rkey,
                    final(self).unapplied@[rkey],
                )
                &&& newlist.len() == oldlist.len() + 1
                &&& newlist.take(oldlist.len() as int) == oldlist
                &&& newlist.last().validator == offender
                &&& newlist.last().own == delta
                &&& newlist.last().others@ == backer_losses(others@, frac.parts_spec())
                &&& newlist.last().reporters@ == reporters@
                &&& newlist.last().payout == payout
            }),
            *final(self) == (Staking { unapplied: final(self).unapplied, ..*old(self) }),
    {
        let ghost fparts = frac.parts_spec();
        let no = others.len();
        let mut loss_list: Vec<(AccountId, Balance)> = Vec::new();
        let mut j: usize = 0;
        while j < no
            invariant
                no == others@.len(),
                0 <= j <= no,
                frac.parts_spec() == fparts,
                loss_list@ =~= backer_losses(others@, fparts as u32).take(j as int),
            decreases no - j,
        {
            let o = others[j];
            let loss = frac.mul_balance(o.value);
            loss_list.push((o.who, loss));
            j = j + 1;
            proof {
                assert(loss_list@.drop_last() =~= backer_losses(others@, fparts as u32).take(
                    j - 1,
                ));
            }
        }
        proof {
            assert(backer_losses(others@, fparts as u32).take(no as int) =~= backer_losses(
                others@,
                fparts as u32,
            ));
        }
        let nrep = reporters.len();
        let mut reps: Vec<AccountId> = Vec::new();
        let mut j2: usize = 0;
        while j2 < nrep
            invariant
                nrep == reporters@.len(),
                0 <= j2 <= nrep,
                reps@ =~= reporters@.take(j2 as int),
            decreases nrep - j2,
        {
            reps.push(reporters[j2]);
            j2 = j2 + 1;
        }
        proof {
            assert(reporters@.take(nrep as int) =~= reporters@);
        }
        let entry = UnappliedSlash { validator: offender, own: delta, others: loss_list, reporters: reps, payout };
        let rkey = self.current_era as u128;
        let mut list: Vec<UnappliedSlash> = match self.unapplied.remove(rkey) {
            Some(l) => l,
            None => Vec::new(),
        };
        let ghost oldlist = list@;
        list.push(entry);
        proof {
            assert(list@.take(oldlist.len() as int) =~= oldlist);
        }
        self.unapplied.insert(rkey, list);
        proof {
            assert(self.unapplied@ =~= old(self).unapplied@.insert(rkey, self.unapplied@[rkey]));
        }
    }

    /// Process one offence report.
    #[verifier::rlimit(100)]
    fn offence_one(&mut self, report: &OffenceReport, frac: Ratio, slash_era: EraIndex)
        requires
            old(self).wf(),
            old(self).current_era < u32::MAX,
        ensures
            final(self).wf(),
            final(self).current_era == old(self).current_era,
            Staking::offence_step_rel(
                *old(self),
                *final(self),
                *report,
                frac.parts_spec(),
                slash_era,
            ),
    {
        let fparts = frac.parts();
        if fparts == 0 {
            return ;
        }
        let offender = report.offender;
        if contains_account(&self.invulnerables, offender) {
            return ;
        }
        if slash_era > self.current_era {
            return ;
        }
        let ws: u32 = if self.current_era >= self.config.bonding_duration {
            self.current_era - self.config.bonding_duration
        } else {
            0
        };
        if slash_era < ws {
            return ;
        }
        let vkey = era_key(slash_era, offender);
        let priorp: u32 = match self.validator_slash_in_era.get(vkey) {
            Some(p) => *p,
            None => 0,
        };
        if priorp >= fparts {
            return ;
        }
        // Find the span the offence era belongs to, against the recorded
        // history or a fresh one.
        let fresh = SlashingSpans::fresh(ws);
        let had_spans = self.spans.contains_key(offender as u128);
        let pos_opt = match self.spans.get(offender as u128) {
            Some(sp) => sp.era_span(slash_era),
            None => fresh.era_span(slash_era),
        };
        let ghost base_spans = Staking::base_spans_of(*self, offender);
        let pos = match pos_opt {
            Some(p) => p,
            None => {
                proof {
                    lemma_span_pos_none(base_spans, slash_era);
                }
                return ;
            },
        };
        proof {
            lemma_span_pos_some(base_spans, slash_era, pos as int);
        }
        let idx: u32 = match self.spans.get(offender as u128) {
            Some(sp) => sp.spans[pos].index,
            None => fresh.spans[pos].index,
        };
        let skey = span_key(offender, idx);
        let rec: SpanRecord = match self.span_records.get(skey) {
            Some(r) => *r,
            None => SpanRecord { slashed: 0, paid_out: 0 },
        };
        let own_slash = frac.mul_balance(report.exposure.own);
        // From here on the era markers are recorded.
        self.validator_slash_in_era.insert(vkey, fparts);
        self.mark_backer_losses(slash_era, &report.exposure.others, frac);
        proof {
            assert(*self == (Staking {
                validator_slash_in_era: self.validator_slash_in_era,
                nominator_slash_in_era: self.nominator_slash_in_era,
                ..*old(self)
            }));
            assert(self.validator_slash_in_era@ == old(self).validator_slash_in_era@.insert(
                era_key_spec(slash_era, offender),
                fparts,
            ));
            assert(self.nominator_slash_in_era@ == nom_markers_after(
                old(self).nominator_slash_in_era@,
                slash_era,
                report.exposure.others@,
                fparts,
            ));
        }
        if own_slash <= rec.slashed {
            return ;
        }
        proof {
            if !had_spans {
                assert(fresh.spans@ =~= Staking::base_spans_of(*old(self), offender));
            }
        }
        self.offence_charge(
            offender,
            report,
            frac,
            slash_era,
            had_spans,
            fresh,
            pos,
            idx,
            rec,
            own_slash,
            Ghost(*old(self)),
        );
    }

    /// Charge a slash that tops its span's high-water mark: update the
    /// span record and history, chill the offender when the offence is in
    /// the open span, and withdraw or defer the marginal amount.
    #[verifier::spinoff_prover]
    #[verifier::rlimit(100)]
    fn offence_charge(
        &mut self,
        offender: AccountId,
        report: &OffenceReport,
        frac: Ratio,
        slash_era: EraIndex,
        had_spans: bool,
        fresh: SlashingSpans,
        pos: usize,
        idx: u32,
        rec: SpanRecord,
        own_slash: Balance,
        Ghost(pre0): Ghost<Staking>,
    )
        requires
            old(self).wf(),
            pre0.wf(),
            pre0.current_era < u32::MAX,
            *old(self) == (Staking {
                validator_slash_in_era: old(self).validator_slash_in_era,
                nominator_slash_in_era: old(self).nominator_slash_in_era,
                ..pre0
            }),
            old(self).validator_slash_in_era@ == pre0.validator_slash_in_era@.insert(
                era_key_spec(slash_era, offender),
                frac.parts_spec(),
            ),
            old(self).nominator_slash_in_era@ == nom_markers_after(
                pre0.nominator_slash_in_era@,
                slash_era,
                report.exposure.others@,
                frac.parts_spec(),
            ),
            offender == report.offender,
            frac.parts_spec() > 0,
            !pre0.invulnerables@.contains(offender),
            slash_era <= pre0.current_era,
            slash_era >= pre0.window_start_spec(),
            !pre0.validator_slash_in_era@.dom().contains(era_key_spec(slash_era, offender))
                || pre0.validator_slash_in_era@[era_key_spec(slash_era, offender)]
                < frac.parts_spec(),
            had_spans == pre0.spans@.dom().contains(offender as u128),
            !had_spans ==> fresh.wf() && fresh.spans@ == Staking::base_spans_of(pre0, offender)
                && fresh.last_nonzero_slash == 0,
            span_pos(Staking::base_spans_of(pre0, offender), slash_era) == Some(pos as int),
            0 <= pos < Staking::base_spans_of(pre0, offender).len(),
            idx == Staking::base_spans_of(pre0, offender)[pos as int].index,
            Staking::base_spans_of(pre0, offender)[pos as int].contains(slash_era),
            rec == if pre0.span_records@.dom().contains(span_key_spec(offender, idx)) {
                pre0.span_records@[span_key_spec(offender, idx)]
            } else {
                SpanRecord { slashed: 0, paid_out: 0 }
            },
            own_slash == mul_frac_spec(
                report.exposure.own as int,
                frac.parts_spec() as int,
                BILLION as int,
            ),
            own_slash > rec.slashed,
        ensures
            final(self).wf(),
            final(self).current_era == old(self).current_era,
            Staking::offence_step_rel(pre0, *final(self), *report, frac.parts_spec(), slash_era),
    {
        let ghost base_spans = Staking::base_spans_of(pre0, offender);
        let ghost marked = *self;
        let fparts = frac.parts();
        let vkey = era_key(slash_era, offender);
        let skey = span_key(offender, idx);
        let delta = own_slash - rec.slashed;
        let rp_pool = self.config.slash_reward_fraction.mul_balance(
            frac.mul_balance(report.exposure.total),
        );
        let pool = if rp_pool >= rec.paid_out {
            rp_pool - rec.paid_out
        } else {
            0
        };
        let payout = pool / 2;
        let paid_out_after = if rec.paid_out <= u128::MAX - payout {
            rec.paid_out + payout
        } else {
            u128::MAX
        };
        self.span_records.insert(skey, SpanRecord { slashed: own_slash, paid_out: paid_out_after });
        // Update the span history.
        let mut spans_val: SlashingSpans = if had_spans {
            match self.spans.remove(offender as u128) {
                Some(s) => s,
                None => fresh,
            }
        } else {
            fresh
        };
        let base_lns = spans_val.last_nonzero_slash;
        spans_val.last_nonzero_slash = if slash_era >= base_lns {
            slash_era
        } else {
            base_lns
        };
        let closing = pos == 0 && idx < u32::MAX;
        if closing {
            proof {
                assert(spans_val.spans@[0].contains(slash_era));
            }
            spans_val.end_span(self.current_era);
            self.validators.remove(offender as u128);
            if !matches!(self.force_era, Forcing::ForceAlways) {
                self.force_era = Forcing::ForceNew;
            }
        }
        self.spans.insert(offender as u128, spans_val);
        proof {
            assert(self.spans@ =~= marked.spans@.insert(offender as u128, self.spans@[offender
                as u128]));
            if closing {
                assert(self.spans@[offender as u128].spans@ =~= seq![
                    SlashingSpan {
                        index: (idx + 1) as u32,
                        start: (marked.current_era + 1) as u32,
                        length: None,
                    },
                    SlashingSpan {
                        index: idx,
                        start: base_spans[0].start,
                        length: Some((marked.current_era + 1 - base_spans[0].start) as u32),
                    },
                ] + base_spans.drop_first());
            }
        }
        if self.config.slash_defer_duration == 0 {
            let ghost staged = *self;
            self.do_slash(offender, delta);
            let nrep = report.reporters.len();
            let each = if nrep == 0 {
                0
            } else {
                payout / (nrep as u128)
            };
            self.pay_reporters(&report.reporters, each);
            proof {
                assert(Staking::slash_reaches(staged, offender) == Staking::slash_reaches(
                    *old(self),
                    offender,
                ));
            }
        } else {
            self.record_deferred(
                offender,
                delta,
                payout,
                &report.exposure.others,
                frac,
                &report.reporters,
            );
        }
    }

    /// Process a batch of offence reports for one era, in order.  Each
    /// report carries the offender's exposure as of that era and its own
    /// slash fraction.
    pub fn on_offence(
        &mut self,
        reports: Vec<OffenceReport>,
        fractions: Vec<Ratio>,
        slash_era: EraIndex,
    )
        requires
            old(self).wf(),
            old(self).current_era < u32::MAX,
            reports@.len() == fractions@.len(),
        ensures
            final(self).wf(),
            offence_chain_rel(*old(self), *final(self), reports@, fractions@, slash_era),
    {
        let n = reports.len();
        let mut i: usize = 0;
        proof {
            assert(reports@.skip(0) =~= reports@);
            assert(fractions@.skip(0) =~= fractions@);
        }
        while i < n
            invariant
                self.wf(),
                self.current_era == old(self).current_era,
                self.current_era < u32::MAX,
                n == reports@.len(),
                n == fractions@.len(),
                0 <= i <= n,
                forall|post: Staking|
                    offence_chain_rel(
                        *self,
                        post,
                        reports@.skip(i as int),
                        fractions@.skip(i as int),
                        slash_era,
                    ) ==> #[trigger] offence_chain_rel(
                        *old(self),
                        post,
                        reports@,
                        fractions@,
                        slash_era,
                    ),
            decreases n - i,
        {
            let ghost pre = *self;
            self.offence_one(&reports[i], fractions[i], slash_era);
            i = i + 1;
            proof {
                assert(reports@.skip(i - 1).first() == reports@[i - 1]);
                assert(reports@.skip(i - 1).drop_first() =~= reports@.skip(i as int));
                assert(fractions@.skip(i - 1).first() == fractions@[i - 1]);
                assert(fractions@.skip(i - 1).drop_first() =~= fractions@.skip(i as int));
                assert forall|post: Staking|
                    offence_chain_rel(
                        *self,
                        post,
                        reports@.skip(i as int),
                        fractions@.skip(i as int),
                        slash_era,
                    ) implies #[trigger] offence_chain_rel(
                    *old(self),
                    post,
                    reports@,
                    fractions@,
                    slash_era,
                ) by {
                    assert(Staking::offence_step_rel(
                        pre,
                        *self,
                        reports@[i - 1],
                        fractions@[i - 1].parts_spec(),
                        slash_era,
                    ));
                    assert(offence_chain_rel(
                        pre,
                        post,
                        reports@.skip(i - 1),
                        fractions@.skip(i - 1),
                        slash_era,
                    ));
                }
            }
        }
        proof {
            assert(reports@.skip(n as int) =~= Seq::<OffenceReport>::empty());
            assert(offence_chain_rel(
                *self,
                *self,
                reports@.skip(n as int),
                fractions@.skip(n as int),
                slash_era,
            ));
        }
    }
}

/// The slash entries that survive a cancellation: those whose position is
/// not among the cancelled indices, in their original order.
pub open spec fn surviving(list: Seq<UnappliedSlash>, cancelled: Seq<u32>) -> Seq<UnappliedSlash>
    decreases list.len(),
{
    if list.len() == 0 {
        Seq::<UnappliedSlash>::empty()
    } else {
        let pre = surviving(list.drop_last(), cancelled);
        if cancelled_at(cancelled, list.len() - 1) {
            pre
        } else {
            pre.push(list.last())
        }
    }
}

/// Whether position `pos` is named among the cancelled indices.
pub open spec fn cancelled_at(cancelled: Seq<u32>, pos: int) -> bool {
    exists|x: int| 0 <= x < cancelled.len() && (#[trigger] cancelled[x]) as int == pos
}

} // verus!
