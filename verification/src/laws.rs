//! The engine's standing laws, stated over the public contracts and
//! proved once for every state the operations can reach.

use crate::ledger::chunk_sum;
use crate::ratio::{mul_frac_spec, BILLION};
use crate::eras::lemma_backer_sum_nonneg;
use crate::staking::{era_key_spec, Staking};
use crate::types::{AccountId, EraIndex, Exposure};
use vstd::prelude::*;

verus! {

impl Staking {
    /// Whether a nomination submitted in `submitted_in` still counts for
    /// elections against `target`: the target offers to validate and has
    /// taken no non-zero slash since the vote was cast.
    pub open spec fn nomination_usable_spec(
        self,
        submitted_in: EraIndex,
        target: AccountId,
    ) -> bool {
        &&& self.validators@.dom().contains(target as u128)
        &&& (self.spans@.dom().contains(target as u128)
            ==> self.spans@[target as u128].last_nonzero_slash <= submitted_in)
    }

    /// Whether a vote cast in era `submitted_in` for `target` still
    /// counts: the host consults this when building the elector's input.
    pub fn nomination_usable(&self, submitted_in: EraIndex, target: AccountId) -> (r: bool)
        requires
            self.wf(),
        ensures
            r == self.nomination_usable_spec(submitted_in, target),
    {
        if !self.validators.contains_key(target as u128) {
            return false;
        }
        match self.spans.get(target as u128) {
            Some(sp) => sp.last_nonzero_slash <= submitted_in,
            None => true,
        }
    }
}

/// Every ledger the engine holds balances its books: the bonded total is
/// the active stake plus the sum of the unlocking chunks, in every
/// well-formed state, so after every operation.
pub proof fn lemma_ledger_books_balance(s: Staking, controller: AccountId)
    requires
        s.wf(),
        s.ledger@.dom().contains(controller as u128),
    ensures
        s.ledger@[controller as u128].total == s.ledger@[controller as u128].active + chunk_sum(
            s.ledger@[controller as u128].unlocking@,
        ),
{
}

/// Every recorded clipped exposure covers its own stake, lists its
/// backers largest first, holds only positive stakes, and never more
/// entries than the reward cap, in every well-formed state.
pub proof fn lemma_recorded_exposure_wf(s: Staking, era: EraIndex, validator: AccountId)
    requires
        s.wf(),
        s.eras_stakers_clipped@.dom().contains(era_key_spec(era, validator)),
    ensures
        ({
            let e = s.eras_stakers_clipped@[era_key_spec(era, validator)];
            &&& e.total >= e.own
            &&& crate::types::others_sorted_desc(e.others@)
            &&& e.others@.len() <= s.config.max_backers_per_validator
            &&& forall|i: int| 0 <= i < e.others@.len() ==> (#[trigger] e.others@[i]).value > 0
        }),
{
}

/// A zero-fraction offence report changes nothing at all: no slash, no
/// chilling, no forced era, and no movement of the last-non-zero-slash
/// marker that gates nominations.
pub proof fn lemma_zero_fraction_transparent(
    pre: Staking,
    post: Staking,
    r: crate::offence::OffenceReport,
    slash_era: EraIndex,
)
    requires
        Staking::offence_step_rel(pre, post, r, 0u32, slash_era),
    ensures
        post == pre,
{
}

/// A charged non-zero slash in the offender's open span moves its
/// last-non-zero-slash marker at least to the offence era, so votes
/// submitted before that era stop counting until they are resubmitted.
pub proof fn lemma_nonzero_slash_invalidates_votes(
    pre: Staking,
    post: Staking,
    r: crate::offence::OffenceReport,
    fparts: u32,
    slash_era: EraIndex,
    submitted_in: EraIndex,
)
    requires
        Staking::offence_step_rel(pre, post, r, fparts, slash_era),
        post != pre,
        fparts > 0,
        post.spans@.dom().contains(r.offender as u128),
        post.validators@ != pre.validators@ || post.spans@ != pre.spans@,
        submitted_in < slash_era,
    ensures
        post.spans@ != pre.spans@ ==> !post.nomination_usable_spec(submitted_in, r.offender),
{
    if post.spans@ != pre.spans@ {
        assert(post.spans@[r.offender as u128].last_nonzero_slash >= slash_era);
    }
}

/// No offence report ever revives a vote: whatever still counts after
/// the report already counted before it.  Together with
/// [`lemma_nonzero_slash_invalidates_votes`] this bounds vote validity
/// from both sides: charged slashes invalidate old votes, and nothing
/// an offence does makes a stale vote count again.
pub proof fn lemma_offence_never_revives_votes(
    pre: Staking,
    post: Staking,
    r: crate::offence::OffenceReport,
    fparts: u32,
    slash_era: EraIndex,
    submitted_in: EraIndex,
    target: AccountId,
)
    requires
        Staking::offence_step_rel(pre, post, r, fparts, slash_era),
    ensures
        post.nomination_usable_spec(submitted_in, target) ==> pre.nomination_usable_spec(
            submitted_in,
            target,
        ),
{
    if post.nomination_usable_spec(submitted_in, target) {
        if post.spans@ != pre.spans@ && target == r.offender {
            assert(post.spans@[target as u128].last_nonzero_slash >= Staking::base_last_nonzero_of(
                pre,
                r.offender,
            ));
        }
    }
}

/// Paying the reporters never touches anyone else's balance.
pub proof fn lemma_pay_leaves_others(
    m: Map<u128, crate::types::Balance>,
    reporters: Seq<AccountId>,
    each: crate::types::Balance,
    who: AccountId,
)
    requires
        !reporters.contains(who),
    ensures
        crate::offence::balances_after_pay(m, reporters, each).dom().contains(who as u128)
            == m.dom().contains(who as u128),
        m.dom().contains(who as u128) ==> crate::offence::balances_after_pay(
            m,
            reporters,
            each,
        )[who as u128] == m[who as u128],
    decreases reporters.len(),
{
    if reporters.len() > 0 {
        let first = reporters.first();
        assert(first != who);
        let prior = if m.dom().contains(first as u128) {
            m[first as u128] as int
        } else {
            0
        };
        let m2 = m.insert(first as u128, crate::offence::sat_add(prior, each as int) as u128);
        assert(!reporters.drop_first().contains(who)) by {
            if reporters.drop_first().contains(who) {
                let j = choose|j: int|
                    0 <= j < reporters.drop_first().len() && reporters.drop_first()[j] == who;
                assert(reporters[j + 1] == who);
            }
        }
        lemma_pay_leaves_others(m2, reporters.drop_first(), each, who);
    }
}

/// Two offence reports for the same offender and era, the milder first:
/// the offender's balance drops by the worse fraction of its exposed own
/// stake exactly once, never by the sum of the two.
///
/// Stated here for an offender with a fresh slashing history and a
/// bonded total covering the worse slash, with immediate application and
/// the offender not among the reporters; the symmetric order is
/// [`lemma_worse_fraction_first`].
pub proof fn lemma_span_slash_idempotent(
    s0: Staking,
    s1: Staking,
    s2: Staking,
    r: crate::offence::OffenceReport,
    f1: u32,
    f2: u32,
    era: EraIndex,
)
    requires
        s0.wf(),
        Staking::offence_step_rel(s0, s1, r, f1, era),
        Staking::offence_step_rel(s1, s2, r, f2, era),
        0 < f1 < f2,
        !s0.invulnerables@.contains(r.offender),
        era <= s0.current_era < u32::MAX,
        era >= s0.window_start_spec(),
        !s0.validator_slash_in_era@.dom().contains(era_key_spec(era, r.offender)),
        !s0.spans@.dom().contains(r.offender as u128),
        !s0.span_records@.dom().contains(crate::staking::span_key_spec(r.offender, 0u32)),
        s0.config.slash_defer_duration == 0,
        !r.reporters@.contains(r.offender),
        Staking::slash_reaches(s0, r.offender),
        s0.ledger@[s0.bonded@[r.offender as u128] as u128].total >= crate::ratio::mul_frac_spec(
            r.exposure.own as int,
            f2 as int,
            BILLION as int,
        ),
    ensures
        s2.balance_spec(r.offender) == crate::offence::sat_sub(
            s0.balance_spec(r.offender) as int,
            crate::ratio::mul_frac_spec(r.exposure.own as int, f2 as int, BILLION as int),
        ),
{
    let offender = r.offender;
    let own = r.exposure.own as int;
    let b = BILLION as int;
    let mf1 = crate::ratio::mul_frac_spec(own, f1 as int, b);
    let mf2 = crate::ratio::mul_frac_spec(own, f2 as int, b);
    crate::ratio::lemma_mul_frac_monotone(own, f1 as int, f2 as int, b);
    assert(own * f1 >= 0) by (nonlinear_arith)
        requires
            own >= 0,
            f1 >= 0,
    {}
    vstd::arithmetic::div_mod::lemma_div_pos_is_pos(own * f1, b);
    let base0 = Staking::base_spans_of(s0, offender);
    assert(base0[0].contains(era));
    assert(crate::offence::span_pos(base0, era) == Some(0int));
    let vkey = era_key_spec(era, offender);
    let c = s0.bonded@[offender as u128] as u128;
    let t0 = s0.ledger@[c].total as int;
    if mf1 == 0 {
        // The first report records only the era markers.
        assert(s1 == (Staking {
            validator_slash_in_era: s1.validator_slash_in_era,
            nominator_slash_in_era: s1.nominator_slash_in_era,
            ..s0
        }));
        assert(s1.validator_slash_in_era@[vkey] == f1);
        assert(Staking::base_spans_of(s1, offender) == base0);
        assert(crate::offence::span_pos(base0, era) == Some(0int));
        if mf2 == 0 {
            assert(s2 == (Staking {
                validator_slash_in_era: s2.validator_slash_in_era,
                nominator_slash_in_era: s2.nominator_slash_in_era,
                ..s1
            }));
            assert(s2.balance_spec(offender) == s0.balance_spec(offender));
        } else {
            // The second report charges the full worse amount.
            assert(Staking::slash_reaches(s1, offender));
            assert(s1.ledger@[c].total == t0);
            assert(Staking::slash_taken(s1, offender, mf2 as u128) == mf2);
            let bas2 = Staking::balances_after_slash(s1, offender, mf2 as u128);
            assert forall|each: crate::types::Balance|
                s2.free_balance@ == crate::offence::balances_after_pay(bas2, r.reporters@, each)
                implies s2.balance_spec(offender) == crate::offence::sat_sub(
                s0.balance_spec(offender) as int,
                mf2,
            ) by {
                lemma_pay_leaves_others(bas2, r.reporters@, each, offender);
                assert(s1.balance_spec(offender) == s0.balance_spec(offender));
            }
        }
    } else {
        // The first report charges the milder amount and closes the span.
        assert(Staking::slash_taken(s0, offender, mf1 as u128) == mf1);
        let bas1 = Staking::balances_after_slash(s0, offender, mf1 as u128);
        assert forall|each: crate::types::Balance|
            s1.free_balance@ == crate::offence::balances_after_pay(bas1, r.reporters@, each)
            implies s1.balance_spec(offender) == crate::offence::sat_sub(
            s0.balance_spec(offender) as int,
            mf1,
        ) by {
            lemma_pay_leaves_others(bas1, r.reporters@, each, offender);
        }
        assert(s1.balance_spec(offender) == crate::offence::sat_sub(
            s0.balance_spec(offender) as int,
            mf1,
        ) as u128);
        assert(s1.validator_slash_in_era@[vkey] == f1);
        assert(s1.span_records@[crate::staking::span_key_spec(offender, 0u32)].slashed == mf1);
        // The offence era now lies in the closed span, which kept its
        // number.
        let spans1 = s1.spans@[offender as u128].spans@;
        assert(spans1.len() >= 2);
        assert(!spans1[0].contains(era));
        assert(spans1[1].contains(era));
        assert(spans1[1].index == 0);
        assert(crate::offence::span_pos(spans1, era) == Some(1int)) by {
            assert(spans1.drop_first().first() == spans1[1]);
            assert(crate::offence::span_pos(spans1.drop_first(), era) == Some(0int));
        }
        assert(s1.ledger@[c].total == t0 - mf1);
        assert(Staking::slash_reaches(s1, offender));
        if mf2 <= mf1 {
            // No further charge; the books already reflect the worse
            // fraction.
            assert(mf1 == mf2);
            assert(s2 == (Staking {
                validator_slash_in_era: s2.validator_slash_in_era,
                nominator_slash_in_era: s2.nominator_slash_in_era,
                ..s1
            }));
            assert(s2.balance_spec(offender) == s1.balance_spec(offender));
        } else {
            let delta = (mf2 - mf1) as u128;
            assert(Staking::slash_taken(s1, offender, delta) == delta);
            let basd = Staking::balances_after_slash(s1, offender, delta);
            assert forall|each: crate::types::Balance|
                s2.free_balance@ == crate::offence::balances_after_pay(basd, r.reporters@, each)
                implies s2.balance_spec(offender) == crate::offence::sat_sub(
                s1.balance_spec(offender) as int,
                delta as int,
            ) by {
                lemma_pay_leaves_others(basd, r.reporters@, each, offender);
            }
            assert(s2.balance_spec(offender) == crate::offence::sat_sub(
                s1.balance_spec(offender) as int,
                delta as int,
            ) as u128);
            assert(crate::offence::sat_sub(
                crate::offence::sat_sub(s0.balance_spec(offender) as int, mf1) as int,
                delta as int,
            ) == crate::offence::sat_sub(s0.balance_spec(offender) as int, mf2));
        }
    }
}

/// Two offence reports for the same offender and era, the worse first:
/// the second is ignored outright, so the balance again drops by the
/// worse fraction exactly once.
pub proof fn lemma_worse_fraction_first(
    s1: Staking,
    s2: Staking,
    r: crate::offence::OffenceReport,
    f1: u32,
    f2: u32,
    era: EraIndex,
)
    requires
        Staking::offence_step_rel(s1, s2, r, f1, era),
        0 < f1 <= f2,
        s1.validator_slash_in_era@.dom().contains(era_key_spec(era, r.offender)),
        s1.validator_slash_in_era@[era_key_spec(era, r.offender)] == f2,
    ensures
        s2 == s1,
{
}

/// The plain sum of backer stakes, with no clamping.
pub open spec fn exact_backer_sum(s: Seq<crate::types::IndividualExposure>) -> int
    decreases s.len(),
{
    if s.len() == 0 {
        0
    } else {
        exact_backer_sum(s.drop_last()) + s.last().value
    }
}

/// The parts per billion of the first `n` backer stakes of `e`, summed.
pub open spec fn backer_parts_prefix(e: Exposure, n: int) -> int
    decreases n,
{
    if n <= 0 {
        0
    } else {
        backer_parts_prefix(e, n - 1) + crate::ratio::rational_parts_spec(
            e.others@[n - 1].value as int,
            e.total as int,
        )
    }
}

/// What the first `n` backers of `e` are paid for `era`, summed exactly.
pub open spec fn all_backer_parts(
    s: Staking,
    era: EraIndex,
    v: AccountId,
    n: int,
    era_payout: crate::types::Balance,
) -> int
    decreases n,
{
    let k = era_key_spec(era, v);
    if n <= 0 || !s.eras_stakers_clipped@.dom().contains(k) {
        0
    } else {
        all_backer_parts(s, era, v, n - 1, era_payout) + s.backer_part_spec(
            era,
            v,
            n - 1,
            s.eras_stakers_clipped@[k].others@[n - 1].who,
            era_payout,
        )
    }
}

/// When a stake splits a positive total exactly, each part's parts per
/// billion is its exact floored ratio.
proof fn lemma_parts_prefix_bounded(e: Exposure, n: int)
    requires
        0 <= n <= e.others@.len(),
        e.total > 0,
        forall|i: int| 0 <= i < e.others@.len() ==> 0 <= (#[trigger] e.others@[i]).value <= e.total,
    ensures
        0 <= backer_parts_prefix(e, n) <= mul_frac_spec(
            exact_prefix_sum(e, n),
            BILLION as int,
            e.total as int,
        ),
        exact_prefix_sum(e, n) >= 0,
    decreases n,
{
    let b = BILLION as int;
    let t = e.total as int;
    if n > 0 {
        lemma_parts_prefix_bounded(e, n - 1);
        let x = e.others@[n - 1].value as int;
        assert(crate::ratio::rational_parts_spec(x, t) == mul_frac_spec(x, b, t)) by {
            if x >= t {
                assert(x == t);
                vstd::arithmetic::div_mod::lemma_div_by_multiple(b, t);
                assert(x * b == b * t) by (nonlinear_arith)
                    requires
                        x == t,
                {}
            }
        }
        crate::ratio::lemma_mul_frac_superadd(b, exact_prefix_sum(e, n - 1), x, t);
        assert(exact_prefix_sum(e, n - 1) * b == b * exact_prefix_sum(e, n - 1) && x * b == b * x
            && exact_prefix_sum(e, n) * b == b * exact_prefix_sum(e, n)) by (nonlinear_arith) {}
        assert(mul_frac_spec(x, b, t) >= 0) by {
            assert(x * b >= 0) by (nonlinear_arith)
                requires
                    x >= 0,
                    b >= 0,
            {}
            vstd::arithmetic::div_mod::lemma_div_pos_is_pos(x * b, t);
        }
    }
}

/// The plain sum of the first `n` backer stakes.
pub open spec fn exact_prefix_sum(e: Exposure, n: int) -> int
    decreases n,
{
    if n <= 0 {
        0
    } else {
        exact_prefix_sum(e, n - 1) + e.others@[n - 1].value
    }
}

/// The backer payments never add to more than the after-commission pot
/// times the summed parts.
proof fn lemma_backer_parts_bounded(
    s: Staking,
    era: EraIndex,
    v: AccountId,
    n: int,
    era_payout: crate::types::Balance,
)
    requires
        s.eras_stakers_clipped@.dom().contains(era_key_spec(era, v)),
        0 <= n <= s.eras_stakers_clipped@[era_key_spec(era, v)].others@.len(),
        s.eras_stakers_clipped@[era_key_spec(era, v)].total > 0,
        s.validator_share_spec(era, v, era_payout) >= mul_frac_spec(
            s.validator_share_spec(era, v, era_payout),
            s.era_commission_spec(era, v),
            BILLION as int,
        ),
        mul_frac_spec(
            s.validator_share_spec(era, v, era_payout),
            s.era_commission_spec(era, v),
            BILLION as int,
        ) >= 0,
    ensures
        0 <= all_backer_parts(s, era, v, n, era_payout) <= mul_frac_spec(
            s.validator_share_spec(era, v, era_payout) - mul_frac_spec(
                s.validator_share_spec(era, v, era_payout),
                s.era_commission_spec(era, v),
                BILLION as int,
            ),
            backer_parts_prefix(s.eras_stakers_clipped@[era_key_spec(era, v)], n),
            BILLION as int,
        ),
        backer_parts_prefix(s.eras_stakers_clipped@[era_key_spec(era, v)], n) >= 0,
    decreases n,
{
    let b = BILLION as int;
    let k = era_key_spec(era, v);
    let e = s.eras_stakers_clipped@[k];
    let share = s.validator_share_spec(era, v, era_payout);
    let cut = mul_frac_spec(share, s.era_commission_spec(era, v), b);
    let shared = share - cut;
    if n > 0 {
        lemma_backer_parts_bounded(s, era, v, n - 1, era_payout);
        let p = crate::ratio::rational_parts_spec(e.others@[n - 1].value as int, e.total as int);
        assert(p >= 0) by {
            if e.others@[n - 1].value < e.total {
                assert((e.others@[n - 1].value as int) * b >= 0) by (nonlinear_arith)
                    requires
                        e.others@[n - 1].value >= 0,
                        b >= 0,
                {}
                vstd::arithmetic::div_mod::lemma_div_pos_is_pos(
                    (e.others@[n - 1].value as int) * b,
                    e.total as int,
                );
            }
        }
        assert(s.backer_part_spec(era, v, n - 1, e.others@[n - 1].who, era_payout)
            == mul_frac_spec(shared, p, b));
        assert(mul_frac_spec(shared, p, b) >= 0) by {
            assert(shared * p >= 0) by (nonlinear_arith)
                requires
                    shared >= 0,
                    p >= 0,
            {}
            vstd::arithmetic::div_mod::lemma_div_pos_is_pos(shared * p, b);
        }
        crate::ratio::lemma_mul_frac_superadd(
            shared,
            backer_parts_prefix(e, n - 1),
            p,
            b,
        );
    }
}

/// What one era's claims can pay out in all, validator and backers
/// together, never exceeds the validator's share of the era payout, and
/// that share never exceeds the payout itself: floor division only loses
/// dust, it never mints.
///
/// Stated for a snapshot whose exposure total is the exact sum of its
/// parts, as every unsaturated snapshot records it.
pub proof fn lemma_payout_never_exceeds(
    s: Staking,
    era: EraIndex,
    v: AccountId,
    era_payout: crate::types::Balance,
)
    requires
        s.wf(),
        s.eras_stakers_clipped@.dom().contains(era_key_spec(era, v)),
        ({
            let e = s.eras_stakers_clipped@[era_key_spec(era, v)];
            e.own + exact_backer_sum(e.others@) == e.total && e.total > 0
        }),
        0 <= s.era_commission_spec(era, v) <= BILLION,
    ensures
        ({
            let e = s.eras_stakers_clipped@[era_key_spec(era, v)];
            s.validator_reward_spec(era, v, era_payout) + all_backer_parts(
                s,
                era,
                v,
                e.others@.len() as int,
                era_payout,
            ) <= s.validator_share_spec(era, v, era_payout) <= era_payout
        }),
{
    let b = BILLION as int;
    let k = era_key_spec(era, v);
    let e = s.eras_stakers_clipped@[k];
    let t = e.total as int;
    let n = e.others@.len() as int;
    let share = s.validator_share_spec(era, v, era_payout);
    let cut = mul_frac_spec(share, s.era_commission_spec(era, v), b);
    let shared = share - cut;
    // The share itself stays within the payout.
    assert(share <= era_payout && share >= 0) by {
        let pt = s.era_points_total_spec(era) as int;
        if pt != 0 {
            let pi = s.era_points_of_spec(era, v) as int;
            crate::ratio::lemma_mul_frac_bounds(era_payout as int, if pi <= pt {
                pi
            } else {
                pt
            }, pt);
        }
    }
    // The commission cut stays within the share.
    crate::ratio::lemma_mul_frac_bounds(share, s.era_commission_spec(era, v), b);
    // Exact prefix sums match the exact backer sum.
    assert(exact_prefix_sum(e, n) == exact_backer_sum(e.others@)) by {
        lemma_prefix_sum_matches(e, n);
        assert(e.others@.take(n) =~= e.others@);
    }
    // Each backer stake fits inside the total.
    assert forall|i: int| 0 <= i < n implies 0 <= (#[trigger] e.others@[i]).value <= e.total by {
        lemma_element_within_sum(e, i, n);
    }
    lemma_parts_prefix_bounded(e, n);
    lemma_backer_parts_bounded(s, era, v, n, era_payout);
    // The summed parts never pass one whole.
    let own_p = crate::ratio::rational_parts_spec(e.own as int, t);
    assert(own_p == mul_frac_spec(e.own as int, b, t)) by {
        if e.own >= e.total {
            assert(e.own == e.total);
            vstd::arithmetic::div_mod::lemma_div_by_multiple(b, t);
            assert((e.own as int) * b == b * t) by (nonlinear_arith)
                requires
                    e.own == e.total,
                    t == e.total,
            {}
        }
    }
    assert(own_p >= 0) by {
        assert((e.own as int) * b >= 0) by (nonlinear_arith)
            requires
                e.own >= 0,
                b >= 0,
        {}
        vstd::arithmetic::div_mod::lemma_div_pos_is_pos((e.own as int) * b, t);
    }
    assert(own_p + backer_parts_prefix(e, n) <= b) by {
        crate::ratio::lemma_mul_frac_superadd(b, e.own as int, exact_prefix_sum(e, n), t);
        assert((e.own as int) * b == b * (e.own as int) && exact_prefix_sum(e, n) * b == b
            * exact_prefix_sum(e, n) && t * b == b * t) by (nonlinear_arith) {}
        vstd::arithmetic::div_mod::lemma_div_by_multiple(b, t);
    }
    // Fold everything back under the share.
    crate::ratio::lemma_mul_frac_superadd(shared, own_p, backer_parts_prefix(e, n), b);
    crate::ratio::lemma_mul_frac_monotone(shared, own_p + backer_parts_prefix(e, n), b, b);
    crate::ratio::lemma_mul_frac_bounds(shared, b, b);
    assert(s.validator_reward_spec(era, v, era_payout) == cut + mul_frac_spec(shared, own_p, b));
}

/// The reward points credited to a list of validators for one era,
/// summed.
pub open spec fn points_sum(s: Staking, era: EraIndex, vs: Seq<AccountId>) -> int
    decreases vs.len(),
{
    if vs.len() == 0 {
        0
    } else {
        points_sum(s, era, vs.drop_last()) + s.era_points_of_spec(era, vs.last())
    }
}

/// The era shares earned by a list of validators, summed.
pub open spec fn shares_sum(
    s: Staking,
    era: EraIndex,
    vs: Seq<AccountId>,
    era_payout: crate::types::Balance,
) -> int
    decreases vs.len(),
{
    if vs.len() == 0 {
        0
    } else {
        shares_sum(s, era, vs.drop_last(), era_payout) + s.validator_share_spec(
            era,
            vs.last(),
            era_payout,
        )
    }
}

/// Point sums only grow.
proof fn lemma_points_sum_nonneg(s: Staking, era: EraIndex, vs: Seq<AccountId>)
    ensures
        points_sum(s, era, vs) >= 0,
    decreases vs.len(),
{
    if vs.len() > 0 {
        lemma_points_sum_nonneg(s, era, vs.drop_last());
    }
}

/// The era shares of any list of validators whose joint points stay
/// within the era's total never add to more than the era payout: the
/// whole pool is divided, dust aside, never multiplied.
pub proof fn lemma_shares_never_exceed_payout(
    s: Staking,
    era: EraIndex,
    vs: Seq<AccountId>,
    era_payout: crate::types::Balance,
)
    requires
        points_sum(s, era, vs) <= s.era_points_total_spec(era),
    ensures
        shares_sum(s, era, vs, era_payout) <= mul_frac_spec(
            era_payout as int,
            points_sum(s, era, vs),
            if s.era_points_total_spec(era) == 0 {
                1int
            } else {
                s.era_points_total_spec(era) as int
            },
        ),
        shares_sum(s, era, vs, era_payout) <= era_payout,
    decreases vs.len(),
{
    let pt = s.era_points_total_spec(era) as int;
    let d = if pt == 0 {
        1int
    } else {
        pt
    };
    if vs.len() == 0 {
        assert(mul_frac_spec(era_payout as int, 0, d) == 0) by {
            assert((era_payout as int) * 0 == 0) by (nonlinear_arith) {}
        }
    } else {
        lemma_shares_never_exceed_payout(s, era, vs.drop_last(), era_payout);
        lemma_points_sum_nonneg(s, era, vs.drop_last());
        let p = s.era_points_of_spec(era, vs.last()) as int;
        if pt == 0 {
            assert(s.validator_share_spec(era, vs.last(), era_payout) == 0);
            assert(mul_frac_spec(era_payout as int, points_sum(s, era, vs), 1) >= shares_sum(
                s,
                era,
                vs,
                era_payout,
            )) by {
                crate::ratio::lemma_mul_frac_monotone(
                    era_payout as int,
                    points_sum(s, era, vs.drop_last()),
                    points_sum(s, era, vs),
                    1,
                );
            }
        } else {
            assert(p <= pt);
            assert(s.validator_share_spec(era, vs.last(), era_payout) == mul_frac_spec(
                era_payout as int,
                p,
                pt,
            ));
            crate::ratio::lemma_mul_frac_superadd(
                era_payout as int,
                points_sum(s, era, vs.drop_last()),
                p,
                pt,
            );
        }
    }
    crate::ratio::lemma_mul_frac_monotone(
        era_payout as int,
        points_sum(s, era, vs),
        if pt == 0 {
            1int
        } else {
            pt
        },
        d,
    );
    crate::ratio::lemma_mul_frac_bounds(era_payout as int, d, d);
}

/// The prefix sum over the whole backer list is the backer sum.
proof fn lemma_prefix_sum_matches(e: Exposure, n: int)
    requires
        0 <= n <= e.others@.len(),
    ensures
        exact_prefix_sum(e, n) == exact_backer_sum(e.others@.take(n)),
    decreases n,
{
    if n == 0 {
        assert(e.others@.take(0) =~= Seq::<crate::types::IndividualExposure>::empty());
    } else {
        lemma_prefix_sum_matches(e, n - 1);
        assert(e.others@.take(n).drop_last() =~= e.others@.take(n - 1));
        assert(e.others@.take(n).last() == e.others@[n - 1]);
    }
    if n == e.others@.len() {
        assert(e.others@.take(n) =~= e.others@);
    }
}

/// A nonnegative summand never exceeds a sum of nonnegative summands.
proof fn lemma_element_within_sum(e: Exposure, i: int, n: int)
    requires
        0 <= i < n <= e.others@.len(),
        e.own + exact_backer_sum(e.others@) == e.total,
        n == e.others@.len(),
    ensures
        e.others@[i].value <= e.total,
{
    lemma_split_sum(e.others@, i);
}

/// Any single chunk of the backer sum is bounded by the whole.
proof fn lemma_split_sum(s: Seq<crate::types::IndividualExposure>, i: int)
    requires
        0 <= i < s.len(),
    ensures
        s[i].value <= exact_backer_sum(s),
    decreases s.len(),
{
    if i == s.len() - 1 {
        lemma_backer_sum_nonneg_exact(s.drop_last());
    } else {
        lemma_split_sum(s.drop_last(), i);
    }
}

/// The exact backer sum is never negative.
proof fn lemma_backer_sum_nonneg_exact(s: Seq<crate::types::IndividualExposure>)
    ensures
        exact_backer_sum(s) >= 0,
    decreases s.len(),
{
    if s.len() > 0 {
        lemma_backer_sum_nonneg_exact(s.drop_last());
    }
}

/// After the history depth is reset to `d`, no record of an era older
/// than `current_era - d + 1` remains, and the records inside the window
/// are untouched.
pub proof fn lemma_history_pruned(pre: Staking, post: Staking, depth: u32, era: EraIndex)
    requires
        pre.wf(),
        post.config.history_depth == depth,
        post.current_era == pre.current_era,
        post.eras_total_stake@ =~= pre.eras_total_stake@.filter_keys(
            |k: u128| (if pre.current_era + 1 > depth {
                pre.current_era + 1 - depth
            } else {
                0int
            }) <= k,
        ),
        post.eras_points_total@ =~= pre.eras_points_total@.filter_keys(
            |k: u128| (if pre.current_era + 1 > depth {
                pre.current_era + 1 - depth
            } else {
                0int
            }) <= k,
        ),
    ensures
        era + depth < post.current_era + 1 ==> !post.eras_total_stake@.dom().contains(era as u128)
            && !post.eras_points_total@.dom().contains(era as u128),
        era + depth >= post.current_era + 1 ==> (post.eras_total_stake@.dom().contains(era as u128)
            == pre.eras_total_stake@.dom().contains(era as u128)) && (
        post.eras_total_stake@.dom().contains(era as u128)
            ==> post.eras_total_stake@[era as u128] == pre.eras_total_stake@[era as u128]),
{
}

} // verus!
