//! The per-controller staking ledger: bonded funds split into the active
//! stake and the chunks waiting out the unbonding period.
//!
//! The ledger's invariant is that `total` always equals `active` plus the
//! sum of the unlocking chunks, after every mutating operation.

use crate::types::{Balance, EraIndex};
use vstd::prelude::*;

verus! {

/// How many unbonding chunks may wait at once.
pub const MAX_UNLOCKING_CHUNKS: usize = 32;

/// A portion of the stake scheduled to unlock.
#[derive(Clone, Copy, PartialEq, Eq, Debug, Structural)]
pub struct UnlockChunk {
    /// The amount waiting.
    pub value: Balance,
    /// The first era in which it can be withdrawn.
    pub era: EraIndex,
}

/// The bonded funds of one stash, addressed by its controller.
#[derive(Clone, PartialEq, Eq, Debug)]
pub struct StakingLedger {
    /// The stash account whose funds these are.
    pub stash: u64,
    /// Everything still locked: active plus unlocking.
    pub total: Balance,
    /// The part backing validation and earning rewards.
    pub active: Balance,
    /// The parts waiting out the unbonding period, in the order the unbonds
    /// were requested.
    pub unlocking: Vec<UnlockChunk>,
    /// The last era for which a reward claim was paid.
    pub last_reward: Option<EraIndex>,
}

/// The sum of the values of a chunk sequence.
pub open spec fn chunk_sum(s: Seq<UnlockChunk>) -> int
    decreases s.len(),
{
    if s.len() == 0 {
        0
    } else {
        chunk_sum(s.drop_last()) + s.last().value
    }
}

/// The chunk values are never negative in sum.
pub proof fn lemma_chunk_sum_nonneg(s: Seq<UnlockChunk>)
    ensures
        chunk_sum(s) >= 0,
    decreases s.len(),
{
    if s.len() > 0 {
        lemma_chunk_sum_nonneg(s.drop_last());
    }
}

/// Summing chunk sequences distributes over concatenation.
pub proof fn lemma_chunk_sum_append(a: Seq<UnlockChunk>, b: Seq<UnlockChunk>)
    ensures
        chunk_sum(a + b) == chunk_sum(a) + chunk_sum(b),
    decreases b.len(),
{
    if b.len() == 0 {
        assert(a + b =~= a);
    } else {
        lemma_chunk_sum_append(a, b.drop_last());
        assert((a + b).drop_last() =~= a + b.drop_last());
        assert((a + b).last() == b.last());
    }
}

/// What a rebond leaves of the chunk sequence and how much stake it moves
/// back: chunks are unwound from the most recently added one backward until
/// `value` is gathered or the chunks run out.
pub open spec fn rebond_chunks(s: Seq<UnlockChunk>, value: int) -> (Seq<UnlockChunk>, int)
    decreases s.len(),
{
    if value <= 0 || s.len() == 0 {
        (s, 0)
    } else if s.last().value <= value {
        let (rest, moved) = rebond_chunks(s.drop_last(), value - s.last().value);
        (rest, moved + s.last().value)
    } else {
        (
            s.update(s.len() - 1, UnlockChunk { value: (s.last().value - value) as u128, era: s.last().era }),
            value,
        )
    }
}

/// A rebond moves no more than was waiting, and exactly that much leaves
/// the chunks.
pub proof fn lemma_rebond_chunks_sum(s: Seq<UnlockChunk>, value: int)
    requires
        value >= 0,
    ensures
        0 <= rebond_chunks(s, value).1 <= value,
        chunk_sum(rebond_chunks(s, value).0) == chunk_sum(s) - rebond_chunks(s, value).1,
    decreases s.len(),
{
    if value <= 0 || s.len() == 0 {
    } else if s.last().value <= value {
        lemma_rebond_chunks_sum(s.drop_last(), value - s.last().value);
    } else {
        let t = rebond_chunks(s, value).0;
        assert(t.drop_last() =~= s.drop_last());
        assert(chunk_sum(t) == chunk_sum(s.drop_last()) + s.last().value - value);
    }
}

/// What a slash leaves of the chunk sequence and how much it takes: chunks
/// are consumed oldest first, an emptied chunk is removed, a partly
/// consumed one keeps the remainder.
pub open spec fn slash_chunks(s: Seq<UnlockChunk>, value: int) -> (Seq<UnlockChunk>, int)
    decreases s.len(),
{
    if value <= 0 || s.len() == 0 {
        (s, 0)
    } else if s.first().value <= value {
        let (rest, taken) = slash_chunks(s.drop_first(), value - s.first().value);
        (rest, taken + s.first().value)
    } else {
        (
            s.update(0, UnlockChunk { value: (s.first().value - value) as u128, era: s.first().era }),
            value,
        )
    }
}

/// A slash takes no more than asked and exactly what it takes leaves the
/// chunks.
pub proof fn lemma_slash_chunks_sum(s: Seq<UnlockChunk>, value: int)
    requires
        value >= 0,
    ensures
        0 <= slash_chunks(s, value).1 <= value,
        chunk_sum(slash_chunks(s, value).0) == chunk_sum(s) - slash_chunks(s, value).1,
    decreases s.len(),
{
    if value <= 0 || s.len() == 0 {
    } else if s.first().value <= value {
        lemma_chunk_sum_first(s);
        lemma_slash_chunks_sum(s.drop_first(), value - s.first().value);
    } else {
        lemma_chunk_sum_update_first(s, (s.first().value - value) as u128);
    }
}

/// Replacing the first chunk's value changes the sum by the difference.
proof fn lemma_chunk_sum_update_first(s: Seq<UnlockChunk>, v: u128)
    requires
        s.len() > 0,
    ensures
        chunk_sum(s.update(0, UnlockChunk { value: v, era: s.first().era })) == chunk_sum(s)
            - s.first().value + v,
    decreases s.len(),
{
    let t = s.update(0, UnlockChunk { value: v, era: s.first().era });
    if s.len() == 1 {
        assert(t.drop_last() =~= s.drop_last());
    } else {
        assert(t.drop_last() =~= s.drop_last().update(
            0,
            UnlockChunk { value: v, era: s.first().era },
        ));
        assert(s.drop_last().first() == s.first());
        lemma_chunk_sum_update_first(s.drop_last(), v);
        assert(t.last() == s.last());
    }
}

impl StakingLedger {
    /// The books balance: everything bonded is either active or unlocking,
    /// and the chunk slots are within their cap.
    pub open spec fn wf(self) -> bool {
        &&& self.total == self.active + chunk_sum(self.unlocking@)
        &&& self.unlocking@.len() <= MAX_UNLOCKING_CHUNKS
    }

    /// A fresh ledger bonding `value` for `stash`.
    pub fn bonded(stash: u64, value: Balance) -> (r: Self)
        ensures
            r.wf(),
            r.stash == stash,
            r.total == value,
            r.active == value,
            r.unlocking@.len() == 0,
            r.last_reward is None,
    {
        StakingLedger { stash, total: value, active: value, unlocking: Vec::new(), last_reward: None }
    }

    /// Bond `extra` more, all of it active at once.
    pub fn bond_extra(&mut self, extra: Balance)
        requires
            old(self).wf(),
            old(self).total + extra <= u128::MAX,
        ensures
            final(self).wf(),
            final(self).stash == old(self).stash,
            final(self).total == old(self).total + extra,
            final(self).active == old(self).active + extra,
            final(self).unlocking@ == old(self).unlocking@,
            final(self).last_reward == old(self).last_reward,
    {
        proof {
            lemma_chunk_sum_nonneg(self.unlocking@);
        }
        self.total = self.total + extra;
        self.active = self.active + extra;
    }

    /// Schedule `value` of the active stake (all of it, if less is active)
    /// to unlock at `era`.
    pub fn unbond(&mut self, value: Balance, era: EraIndex) -> (moved: Balance)
        requires
            old(self).wf(),
            old(self).unlocking@.len() < MAX_UNLOCKING_CHUNKS,
        ensures
            final(self).wf(),
            moved == if value <= old(self).active {
                value as int
            } else {
                old(self).active as int
            },
            final(self).stash == old(self).stash,
            final(self).total == old(self).total,
            final(self).active == old(self).active - moved,
            final(self).unlocking@ == old(self).unlocking@.push(
                UnlockChunk { value: moved, era },
            ),
            final(self).last_reward == old(self).last_reward,
    {
        let moved = if value <= self.active {
            value
        } else {
            self.active
        };
        self.active = self.active - moved;
        let chunk = UnlockChunk { value: moved, era };
        self.unlocking.push(chunk);
        proof {
            assert(self.unlocking@.drop_last() =~= old(self).unlocking@);
        }
        moved
    }

    /// Move up to `value` back from the unlocking chunks into the active
    /// stake, unwinding the most recent chunks first.
    pub fn rebond(&mut self, value: Balance)
        requires
            old(self).wf(),
        ensures
            final(self).wf(),
            final(self).stash == old(self).stash,
            final(self).total == old(self).total,
            final(self).unlocking@ == rebond_chunks(old(self).unlocking@, value as int).0,
            final(self).active == old(self).active + rebond_chunks(
                old(self).unlocking@,
                value as int,
            ).1,
            final(self).last_reward == old(self).last_reward,
    {
        let ghost orig = *self;
        let mut remaining: u128 = value;
        proof {
            lemma_rebond_chunks_sum(self.unlocking@, remaining as int);
        }
        while remaining > 0 && self.unlocking.len() > 0
            invariant
                self.wf(),
                self.stash == orig.stash,
                self.total == orig.total,
                self.last_reward == orig.last_reward,
                remaining <= value,
                orig.active + rebond_chunks(orig.unlocking@, value as int).1 == self.active
                    + rebond_chunks(self.unlocking@, remaining as int).1,
                rebond_chunks(orig.unlocking@, value as int).0 == rebond_chunks(
                    self.unlocking@,
                    remaining as int,
                ).0,
            decreases self.unlocking@.len() + (if remaining > 0 {
                1int
            } else {
                0int
            }),
        {
            let ghost pre = *self;
            let ghost prerem = remaining as int;
            let n = self.unlocking.len();
            let last_value = self.unlocking[n - 1].value;
            proof {
                lemma_rebond_chunks_sum(self.unlocking@, remaining as int);
                lemma_chunk_sum_nonneg(self.unlocking@.drop_last());
            }
            if last_value <= remaining {
                self.unlocking.pop();
                self.active = self.active + last_value;
                remaining = remaining - last_value;
                proof {
                    assert(pre.unlocking@.drop_last() =~= self.unlocking@);
                    lemma_rebond_chunks_sum(self.unlocking@, remaining as int);
                }
            } else {
                let era = self.unlocking[n - 1].era;
                let slot = &mut self.unlocking[n - 1];
                *slot = UnlockChunk { value: last_value - remaining, era };
                self.active = self.active + remaining;
                remaining = 0;
                proof {
                    assert(self.unlocking@ =~= pre.unlocking@.update(
                        pre.unlocking@.len() - 1,
                        UnlockChunk { value: (last_value - prerem) as u128, era },
                    ));
                    assert(rebond_chunks(pre.unlocking@, prerem).0 == self.unlocking@);
                    assert(rebond_chunks(self.unlocking@, 0).0 == self.unlocking@);
                    assert(self.unlocking@.drop_last() =~= pre.unlocking@.drop_last());
                    lemma_chunk_sum_update_last(pre.unlocking@, (last_value - prerem) as u128);
                }
            }
        }
    }

    /// Remove every chunk whose era has been reached, handing back how much
    /// was freed.
    pub fn withdraw_unbonded(&mut self, current_era: EraIndex) -> (freed: Balance)
        requires
            old(self).wf(),
        ensures
            final(self).wf(),
            final(self).stash == old(self).stash,
            final(self).active == old(self).active,
            final(self).last_reward == old(self).last_reward,
            final(self).unlocking@ == old(self).unlocking@.filter(
                |c: UnlockChunk| c.era > current_era,
            ),
            final(self).total == old(self).total - freed,
            freed == chunk_sum(old(self).unlocking@) - chunk_sum(final(self).unlocking@),
    {
        let ghost orig = *self;
        let n = self.unlocking.len();
        let mut kept: Vec<UnlockChunk> = Vec::new();
        let mut freed: u128 = 0;
        let mut i: usize = 0;
        proof {
            assert(orig.unlocking@.take(0).filter(|c: UnlockChunk| c.era > current_era) =~= Seq::<
                UnlockChunk,
            >::empty());
            lemma_chunk_sum_nonneg(orig.unlocking@);
        }
        while i < n
            invariant
                *self == orig,
                n == orig.unlocking@.len(),
                0 <= i <= n,
                orig.wf(),
                kept@ == orig.unlocking@.take(i as int).filter(
                    |c: UnlockChunk| c.era > current_era,
                ),
                freed + chunk_sum(kept@) == chunk_sum(orig.unlocking@.take(i as int)),
                freed >= 0,
                chunk_sum(kept@) >= 0,
            decreases n - i,
        {
            let c = self.unlocking[i];
            proof {
                assert(orig.unlocking@.take(i + 1).drop_last() =~= orig.unlocking@.take(i as int));
                assert(orig.unlocking@.take(i + 1) =~= orig.unlocking@.take(i as int).push(c));
                reveal_with_fuel(Seq::filter, 2);
                assert(orig.unlocking@.take(i as int).push(c).filter(
                    |c: UnlockChunk| c.era > current_era,
                ) == if c.era > current_era {
                    orig.unlocking@.take(i as int).filter(|c: UnlockChunk| c.era > current_era).push(
                        c,
                    )
                } else {
                    orig.unlocking@.take(i as int).filter(|c: UnlockChunk| c.era > current_era)
                });
                lemma_chunk_sum_take_bound(orig.unlocking@, i + 1);
            }
            if c.era > current_era {
                kept.push(c);
                proof {
                    assert(kept@.drop_last() =~= kept@.drop_last());
                }
            } else {
                freed = freed + c.value;
            }
            i = i + 1;
            proof {
                if c.era > current_era {
                    assert(kept@.drop_last() =~= orig.unlocking@.take(i - 1).filter(
                        |c: UnlockChunk| c.era > current_era,
                    ));
                }
            }
        }
        proof {
            assert(orig.unlocking@.take(n as int) =~= orig.unlocking@);
        }
        self.unlocking = kept;
        self.total = self.total - freed;
        freed
    }

    /// Take up to `value` out of the bonded funds, the active stake first
    /// and then the oldest unlocking chunks; what was actually taken comes
    /// back.
    pub fn slash(&mut self, value: Balance) -> (taken: Balance)
        requires
            old(self).wf(),
        ensures
            final(self).wf(),
            final(self).stash == old(self).stash,
            final(self).last_reward == old(self).last_reward,
            final(self).active == if value <= old(self).active {
                old(self).active - value
            } else {
                0int
            },
            final(self).unlocking@ == slash_chunks(
                old(self).unlocking@,
                value - (old(self).active - final(self).active),
            ).0,
            taken == old(self).total - final(self).total,
            taken == if value <= old(self).total {
                value as int
            } else {
                old(self).total as int
            },
    {
        let ghost orig = *self;
        let from_active = if value <= self.active {
            value
        } else {
            self.active
        };
        self.active = self.active - from_active;
        let mut remaining: u128 = value - from_active;
        let ghost rem0 = remaining as int;
        proof {
            lemma_chunk_sum_nonneg(self.unlocking@);
            lemma_slash_chunks_sum(self.unlocking@, remaining as int);
        }
        let mut taken_chunks: u128 = 0;
        while remaining > 0 && self.unlocking.len() > 0
            invariant
                self.stash == orig.stash,
                self.last_reward == orig.last_reward,
                self.active == orig.active - (if value <= orig.active {
                    value as int
                } else {
                    orig.active as int
                }),
                self.total == orig.total,
                self.unlocking@.len() <= MAX_UNLOCKING_CHUNKS,
                chunk_sum(self.unlocking@) == chunk_sum(orig.unlocking@) - taken_chunks,
                chunk_sum(self.unlocking@) >= 0,
                taken_chunks + remaining == rem0,
                0 <= rem0 <= u128::MAX,
                remaining >= 0,
                slash_chunks(self.unlocking@, remaining as int).0 == slash_chunks(
                    orig.unlocking@,
                    rem0,
                ).0,
                taken_chunks + slash_chunks(self.unlocking@, remaining as int).1 == slash_chunks(
                    orig.unlocking@,
                    rem0,
                ).1,
            decreases self.unlocking@.len() + (if remaining > 0 {
                1int
            } else {
                0int
            }),
        {
            let ghost pre = *self;
            let ghost prerem = remaining as int;
            let first_value = self.unlocking[0].value;
            proof {
                lemma_chunk_sum_nonneg(self.unlocking@.drop_first());
                assert(chunk_sum(self.unlocking@) == chunk_sum(self.unlocking@.drop_first())
                    + self.unlocking@.first().value) by {
                    lemma_chunk_sum_first(self.unlocking@);
                }
            }
            if first_value <= remaining {
                self.unlocking.remove(0);
                remaining = remaining - first_value;
                taken_chunks = taken_chunks + first_value;
                proof {
                    assert(pre.unlocking@.drop_first() =~= self.unlocking@);
                    lemma_slash_chunks_sum(self.unlocking@, remaining as int);
                }
            } else {
                let era = self.unlocking[0].era;
                let slot = &mut self.unlocking[0];
                *slot = UnlockChunk { value: first_value - remaining, era };
                taken_chunks = taken_chunks + remaining;
                remaining = 0;
                proof {
                    assert(self.unlocking@ =~= pre.unlocking@.update(
                        0,
                        UnlockChunk { value: (first_value - prerem) as u128, era },
                    ));
                    lemma_chunk_sum_update_first(pre.unlocking@, (first_value - prerem) as u128);
                    assert(slash_chunks(pre.unlocking@, prerem).0 == self.unlocking@);
                }
            }
        }
        let taken = value - remaining;
        proof {
            lemma_chunk_sum_nonneg(self.unlocking@);
            lemma_chunk_sum_nonneg(orig.unlocking@);
            lemma_slash_chunks_sum(orig.unlocking@, rem0);
            assert(taken == from_active + taken_chunks);
            assert(taken_chunks <= chunk_sum(orig.unlocking@));
            assert(taken <= orig.total);
            if remaining > 0 {
                // The chunks ran dry: everything bonded was taken.
                assert(self.unlocking@.len() == 0);
                assert(taken_chunks == chunk_sum(orig.unlocking@));
                assert(from_active == orig.active);
                assert(taken == orig.total);
                assert(value > orig.total);
            }
        }
        self.total = self.total - taken;
        proof {
            if remaining == 0 {
                assert(slash_chunks(self.unlocking@, 0).0 == self.unlocking@);
            } else {
                assert(self.unlocking@ =~= Seq::<UnlockChunk>::empty());
                assert(slash_chunks(self.unlocking@, remaining as int).0 == self.unlocking@);
            }
        }
        taken
    }
}

/// Replacing the last chunk's value changes the sum by the difference.
proof fn lemma_chunk_sum_update_last(s: Seq<UnlockChunk>, v: u128)
    requires
        s.len() > 0,
    ensures
        chunk_sum(s.update(s.len() - 1, UnlockChunk { value: v, era: s.last().era }))
            == chunk_sum(s) - s.last().value + v,
{
    let t = s.update(s.len() - 1, UnlockChunk { value: v, era: s.last().era });
    assert(t.drop_last() =~= s.drop_last());
}

/// The sum taken from the front: first chunk plus the rest.
proof fn lemma_chunk_sum_first(s: Seq<UnlockChunk>)
    requires
        s.len() > 0,
    ensures
        chunk_sum(s) == s.first().value + chunk_sum(s.drop_first()),
{
    let head = seq![s.first()];
    assert(s =~= head + s.drop_first());
    lemma_chunk_sum_append(head, s.drop_first());
    assert(head.drop_last() =~= Seq::<UnlockChunk>::empty());
    reveal_with_fuel(chunk_sum, 2);
    assert(chunk_sum(head) == s.first().value);
}

/// A prefix of the chunks never sums to more than the whole.
proof fn lemma_chunk_sum_take_bound(s: Seq<UnlockChunk>, i: int)
    requires
        0 <= i <= s.len(),
    ensures
        chunk_sum(s.take(i)) <= chunk_sum(s),
    decreases s.len() - i,
{
    if i == s.len() {
        assert(s.take(i) =~= s);
    } else {
        lemma_chunk_sum_take_bound(s, i + 1);
        assert(s.take(i + 1).drop_last() =~= s.take(i));
    }
}

} // verus!
