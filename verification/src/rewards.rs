//! Block rewards and fee distribution.
//!
//! The amounts that the tokenomics schedule yields (the block reward for an
//! epoch, the split of collected fees, the commission cut of the staker pool)
//! are inputs; this module keeps the running totals and decides who is
//! credited what, in which order, and what is redirected to the refresh pool
//! when the producer has been tombstoned.

use vstd::prelude::*;
use crate::ordering::{desc_stable_order, is_desc_stable_order};

verus! {

/// Saturating `u64` addition.
pub open spec fn sat_add(a: u64, b: u64) -> u64 {
    if a + b > u64::MAX { u64::MAX } else { (a + b) as u64 }
}

/// Saturating `u64` subtraction.
pub open spec fn sat_sub(a: u64, b: u64) -> u64 {
    if a >= b { (a - b) as u64 } else { 0 }
}

fn add_sat(a: u64, b: u64) -> (r: u64)
    ensures
        r == sat_add(a, b),
{
    match a.checked_add(b) {
        Some(v) => v,
        None => u64::MAX,
    }
}

fn sub_sat(a: u64, b: u64) -> (r: u64)
    ensures
        r == sat_sub(a, b),
{
    if a >= b { a - b } else { 0 }
}

/// How collected fees split, as the tokenomics schedule computes it.
#[derive(Clone, Copy, PartialEq, Eq, Structural, Debug)]
pub struct FeeDistribution {
    pub burned: u64,
    pub to_producer: u64,
    pub to_stakers: u64,
}

/// One balance effect of reward processing, to be applied in order.
#[derive(Clone, Copy, PartialEq, Eq, Structural, Debug)]
pub enum RewardEffect {
    /// Credit the block producer (saturating) and refresh its demurrage anchor.
    CreditProducer(u64),
    /// Credit the attester at this index of the attester list (saturating).
    CreditAttester(usize, u64),
    /// Accrue into the refresh pool under the dead-producer namespace.
    RedirectToPool(u64),
}

/// Running totals of minted, burned and distributed tokens.
#[derive(Clone, Copy, PartialEq, Eq, Structural, Debug)]
pub struct RewardAccumulator {
    pub total_minted: u64,
    pub total_burned: u64,
    pub total_to_producers: u64,
    pub total_to_stakers: u64,
    /// Staker rewards accumulated and not yet distributed.
    pub pending_staker_rewards: u64,
}

/// Snapshot of the reward totals.
#[derive(Clone, Copy, PartialEq, Eq, Structural, Debug)]
pub struct RewardSummary {
    pub total_minted: u64,
    pub total_burned: u64,
    pub total_to_producers: u64,
    pub total_to_stakers: u64,
    pub pending_staker_rewards: u64,
    /// Net supply change (minted − burned, each taken as `i64`); negative is deflationary.
    pub net_supply_change: i64,
}

/// Where a producer-bound amount goes: to the producer if alive, else to the
/// refresh pool when one was supplied, else nowhere.
pub open spec fn producer_effects(amount: u64, alive: bool, has_pool: bool) -> Seq<RewardEffect> {
    if alive {
        seq![RewardEffect::CreditProducer(amount)]
    } else if has_pool {
        seq![RewardEffect::RedirectToPool(amount)]
    } else {
        Seq::empty()
    }
}

/// The part of `producer_effects` actually credited to the producer.
pub open spec fn producer_share(amount: u64, alive: bool) -> int {
    if alive { amount as int } else { 0 }
}

fn push_producer(effects: &mut Vec<RewardEffect>, amount: u64, alive: bool, has_pool: bool)
    ensures
        final(effects)@ == old(effects)@ + producer_effects(amount, alive, has_pool),
{
    if alive {
        effects.push(RewardEffect::CreditProducer(amount));
    } else if has_pool {
        effects.push(RewardEffect::RedirectToPool(amount));
    }
    assert(effects@ =~= old(effects)@ + producer_effects(amount, alive, has_pool));
}

/// The effects of `process_block_rewards`, in order.
pub open spec fn block_reward_effects(block_reward: u64, fees: Option<FeeDistribution>, alive: bool, has_pool: bool) -> Seq<RewardEffect> {
    let minted = if block_reward > 0 { producer_effects(block_reward, alive, has_pool) } else { Seq::empty() };
    let fee_part = match fees {
        Some(d) => if d.to_producer > 0 { producer_effects(d.to_producer, alive, has_pool) } else { Seq::empty() },
        None => Seq::empty(),
    };
    minted + fee_part
}


/// Credit to the staker at `index` of the staker list.
#[derive(Clone, Copy, PartialEq, Eq, Structural, Debug)]
pub struct StakerCredit {
    pub index: usize,
    pub amount: u64,
}

/// Sum of a sequence.
pub open spec fn total(s: Seq<u64>) -> int
    decreases s.len(),
{
    if s.len() == 0 { 0 } else { total(s.drop_last()) + s.last() }
}

/// Left-to-right saturating sum, as `fold(0, saturating_add)` computes it.
pub open spec fn sat_fold(s: Seq<u64>) -> u64
    decreases s.len(),
{
    if s.len() == 0 { 0 } else { sat_add(sat_fold(s.drop_last()), s.last()) }
}

/// A staker's pro-rata share of `pool`: `pool * stake / t`, rounded down.
pub open spec fn staker_share(pool: u64, stake: u64, t: u64) -> u64 {
    (pool * stake / t as int) as u64
}

/// Each staker's pro-rata share.
pub open spec fn shares(pool: u64, stakes: Seq<u64>, t: u64) -> Seq<u64> {
    stakes.map_values(|x: u64| staker_share(pool, x, t))
}

/// The pro-rata credits, in staker order, skipping zero shares.
pub open spec fn share_credits(pool: u64, stakes: Seq<u64>, t: u64) -> Seq<StakerCredit>
    decreases stakes.len(),
{
    if stakes.len() == 0 {
        Seq::empty()
    } else {
        let rest = share_credits(pool, stakes.drop_last(), t);
        let sh = staker_share(pool, stakes.last(), t);
        if sh > 0 { rest.push(StakerCredit { index: (stakes.len() - 1) as usize, amount: sh }) } else { rest }
    }
}

/// One-unit dust credits to the first `count` stakers of `order`.
pub open spec fn dust_credits(order: Seq<usize>, count: nat) -> Seq<StakerCredit> {
    Seq::new(count, |j: int| StakerCredit { index: order[j], amount: 1 })
}

/// Sum of the amounts of a list of staker credits.
pub open spec fn credited_total(cs: Seq<StakerCredit>) -> int
    decreases cs.len(),
{
    if cs.len() == 0 { 0 } else { credited_total(cs.drop_last()) + cs.last().amount }
}

proof fn lemma_credited_concat(a: Seq<StakerCredit>, b: Seq<StakerCredit>)
    ensures
        credited_total(a + b) == credited_total(a) + credited_total(b),
    decreases b.len(),
{
    if b.len() > 0 {
        assert((a + b).drop_last() =~= a + b.drop_last());
        lemma_credited_concat(a, b.drop_last());
    }
}

proof fn lemma_credited_shares(pool: u64, stakes: Seq<u64>, t: u64)
    ensures
        credited_total(share_credits(pool, stakes, t)) == total(shares(pool, stakes, t)),
    decreases stakes.len(),
{
    if stakes.len() > 0 {
        lemma_credited_shares(pool, stakes.drop_last(), t);
        let sh = shares(pool, stakes, t);
        assert(sh.drop_last() =~= shares(pool, stakes.drop_last(), t));
        assert(sh.last() == staker_share(pool, stakes.last(), t));
        assert(total(sh) == total(sh.drop_last()) + sh.last());
        let rest = share_credits(pool, stakes.drop_last(), t);
        let x = staker_share(pool, stakes.last(), t);
        if x > 0 {
            assert(share_credits(pool, stakes, t) == rest.push(StakerCredit { index: (stakes.len() - 1) as usize, amount: x }));
            assert(share_credits(pool, stakes, t).drop_last() =~= rest);
        } else {
            assert(share_credits(pool, stakes, t) == rest);
        }
    }
}

proof fn lemma_credited_dust(order: Seq<usize>, count: nat)
    ensures
        credited_total(dust_credits(order, count)) == count,
    decreases count,
{
    if count > 0 {
        lemma_credited_dust(order, (count - 1) as nat);
        assert(dust_credits(order, count).drop_last() =~= dust_credits(order, (count - 1) as nat));
    }
}

/// The saturating sum is the true sum capped at `u64::MAX`, and no smaller than any term.
pub(crate) proof fn lemma_sat_fold(s: Seq<u64>)
    ensures
        sat_fold(s) == if total(s) > u64::MAX { u64::MAX as int } else { total(s) },
        total(s) >= 0,
        forall|i: int| 0 <= i < s.len() ==> #[trigger] s[i] <= sat_fold(s),
    decreases s.len(),
{
    if s.len() > 0 {
        let init = s.drop_last();
        lemma_sat_fold(init);
        assert forall|i: int| 0 <= i < s.len() implies #[trigger] s[i] <= sat_fold(s) by {
            if i < init.len() {
                assert(init[i] == s[i]);
            }
        }
    }
}

/// With `t` the total stake, the shares fall short of the pool by less than
/// the number of stakers: `t * F <= pool * S <= t * F + n * (t - 1)` over
/// every prefix (F its shares' sum, S its stake sum, n its length).
proof fn lemma_share_bounds(pool: u64, stakes: Seq<u64>, t: u64)
    requires
        t > 0,
        forall|i: int| 0 <= i < stakes.len() ==> #[trigger] stakes[i] <= t,
    ensures
        t * total(shares(pool, stakes, t)) <= pool * total(stakes),
        pool * total(stakes) <= t * total(shares(pool, stakes, t)) + stakes.len() * (t - 1),
    decreases stakes.len(),
{
    if stakes.len() > 0 {
        let init = stakes.drop_last();
        assert forall|i: int| 0 <= i < init.len() implies #[trigger] init[i] <= t by {
            assert(init[i] == stakes[i]);
        }
        lemma_share_bounds(pool, init, t);
        assert(shares(pool, stakes, t).drop_last() =~= shares(pool, init, t));
        let x = stakes.last();
        let f = staker_share(pool, x, t);
        let ff = total(shares(pool, init, t));
        let ss = total(stakes.drop_last());
        let px = pool * x;
        assert(px >= 0) by (nonlinear_arith) requires px == pool * x, pool >= 0, x >= 0;
        assert(px / (t as int) <= pool) by (nonlinear_arith)
            requires px == pool * x, x <= t, t > 0, pool >= 0, x >= 0;
        vstd::arithmetic::div_mod::lemma_fundamental_div_mod(px, t as int);
        assert(0 <= px % (t as int) < t) by {
            vstd::arithmetic::div_mod::lemma_mod_bound(px, t as int);
        }
        assert(px / (t as int) >= 0) by {
            vstd::arithmetic::div_mod::lemma_div_pos_is_pos(px, t as int);
        }
        assert(f == px / (t as int));
        vstd::arithmetic::mul::lemma_mul_is_distributive_add(t as int, ff, f as int);
        vstd::arithmetic::mul::lemma_mul_is_distributive_add(pool as int, ss, x as int);
        vstd::arithmetic::mul::lemma_mul_is_distributive_add_other_way((t - 1) as int, init.len() as int, 1);
    }
}


/// Attester `i`'s cut of `attester_total` split over `n` attesters: an equal
/// share each, the division's remainder going to the first attester.
pub open spec fn attester_share(attester_total: u64, n: nat, i: int) -> int {
    let per = (attester_total as int) / (n as int);
    if i == 0 { per + (attester_total - per * n) } else { per }
}

/// Credits to the first `k` of `n` attesters, skipping zero shares.
pub open spec fn attester_credits(attester_total: u64, n: nat, k: nat) -> Seq<RewardEffect>
    decreases k,
{
    if k == 0 {
        Seq::empty()
    } else {
        let rest = attester_credits(attester_total, n, (k - 1) as nat);
        let sh = attester_share(attester_total, n, k - 1);
        if sh > 0 { rest.push(RewardEffect::CreditAttester((k - 1) as usize, sh as u64)) } else { rest }
    }
}

/// The proposer's part of a block reward: all of it without attesters, else 60%.
pub open spec fn proposer_part(block_reward: u64, attesters: nat) -> u64 {
    if attesters == 0 { block_reward } else { (block_reward * 60 / 100) as u64 }
}

/// The effects of `process_block_rewards_v2`, in order.
pub open spec fn block_reward_effects_v2(
    block_reward: u64,
    fees: Option<FeeDistribution>,
    staker_split: (u64, u64),
    alive: bool,
    has_pool: bool,
    attesters: nat,
) -> Seq<RewardEffect> {
    let p = proposer_part(block_reward, attesters);
    let att_total = (block_reward - p) as u64;
    let minted = if block_reward > 0 {
        (if p > 0 { producer_effects(p, alive, has_pool) } else { Seq::empty() })
            + (if att_total > 0 && attesters > 0 { attester_credits(att_total, attesters, attesters) } else { Seq::empty() })
    } else {
        Seq::empty()
    };
    let fee_part = match fees {
        Some(d) =>
            (if d.to_producer > 0 { producer_effects(d.to_producer, alive, has_pool) } else { Seq::empty() })
            + (if d.to_stakers > 0 && staker_split.1 > 0 { producer_effects(staker_split.1, alive, has_pool) } else { Seq::empty() }),
        None => Seq::empty(),
    };
    minted + fee_part
}

/// The base-reward field a block reward is recomputed from after the APY cap:
/// scaled by `capped / raw` (saturating multiply, then divide) when the legacy
/// schedule is in use and the raw reward is positive; unchanged otherwise.
pub fn apy_scaled_base_reward(base_reward: u64, raw_reward: u64, capped_reward: u64, legacy_schedule: bool) -> (r: u64)
    ensures
        r == if legacy_schedule && raw_reward > 0 {
            (sat_mul(capped_reward, base_reward) / raw_reward as int) as u64
        } else {
            base_reward
        },
{
    if legacy_schedule && raw_reward > 0 {
        let m = match capped_reward.checked_mul(base_reward) {
            Some(v) => v,
            None => u64::MAX,
        };
        m / raw_reward
    } else {
        base_reward
    }
}

/// Saturating `u64` multiplication.
pub open spec fn sat_mul(a: u64, b: u64) -> int {
    if a * b > u64::MAX { u64::MAX as int } else { a * b }
}

impl RewardAccumulator {
    pub fn new() -> (acc: Self)
        ensures
            acc == (RewardAccumulator {
                total_minted: 0,
                total_burned: 0,
                total_to_producers: 0,
                total_to_stakers: 0,
                pending_staker_rewards: 0,
            }),
    {
        RewardAccumulator {
            total_minted: 0,
            total_burned: 0,
            total_to_producers: 0,
            total_to_stakers: 0,
            pending_staker_rewards: 0,
        }
    }

    /// Mint a proposer-priority bonus of `priority_sum / scale_per_unit`
    /// (none when either is zero or the quotient is zero). The bonus counts
    /// as minted; it is credited to a live producer (and returned), or
    /// redirected to the refresh pool for a tombstoned one (and 0 returned).
    pub fn apply_priority_bonus(
        &mut self,
        priority_sum: u64,
        scale_per_unit: u64,
        producer_alive: bool,
        has_pool: bool,
    ) -> (r: (u64, Vec<RewardEffect>))
        ensures
            ({
                let bonus = if scale_per_unit == 0 { 0 } else { priority_sum / scale_per_unit };
                if scale_per_unit == 0 || priority_sum == 0 || bonus == 0 {
                    r.0 == 0 && r.1@.len() == 0 && *final(self) == *old(self)
                } else {
                    &&& *final(self) == (RewardAccumulator { total_minted: sat_add(old(self).total_minted, bonus as u64), ..*old(self) })
                    &&& r.1@ == producer_effects(bonus as u64, producer_alive, has_pool)
                    &&& r.0 == producer_share(bonus as u64, producer_alive)
                }
            }),
    {
        let mut effects: Vec<RewardEffect> = Vec::new();
        if scale_per_unit == 0 || priority_sum == 0 {
            return (0, effects);
        }
        let bonus = priority_sum / scale_per_unit;
        if bonus == 0 {
            return (0, effects);
        }
        self.total_minted = add_sat(self.total_minted, bonus);
        push_producer(&mut effects, bonus, producer_alive, has_pool);
        assert(effects@ =~= producer_effects(bonus, producer_alive, has_pool));
        if producer_alive { (bonus, effects) } else { (0, effects) }
    }

    /// Process one block: mint `block_reward` to the producer, then split the
    /// collected fees (`fees` is `None` when no fee was collected). Burned
    /// fees and producer and staker shares are added to the totals
    /// (saturating); the staker share accrues to `pending_staker_rewards`.
    /// Producer-bound amounts follow `producer_effects`. Returns what the
    /// producer itself was credited.
    pub fn process_block_rewards(
        &mut self,
        block_reward: u64,
        fees: Option<FeeDistribution>,
        producer_alive: bool,
        has_pool: bool,
    ) -> (r: (u64, Vec<RewardEffect>))
        requires
            producer_alive ==> (fees matches Some(d) ==> block_reward + d.to_producer <= u64::MAX),
        ensures
            r.1@ == block_reward_effects(block_reward, fees, producer_alive, has_pool),
            r.0 == (if block_reward > 0 { producer_share(block_reward, producer_alive) } else { 0 })
                + match fees { Some(d) => if d.to_producer > 0 { producer_share(d.to_producer, producer_alive) } else { 0 }, None => 0 },
            final(self).total_minted == if block_reward > 0 { sat_add(old(self).total_minted, block_reward) } else { old(self).total_minted },
            final(self).total_burned == match fees { Some(d) => sat_add(old(self).total_burned, d.burned), None => old(self).total_burned },
            final(self).total_to_producers == match fees {
                Some(d) => if d.to_producer > 0 { sat_add(old(self).total_to_producers, d.to_producer) } else { old(self).total_to_producers },
                None => old(self).total_to_producers,
            },
            final(self).pending_staker_rewards == match fees {
                Some(d) => if d.to_stakers > 0 { sat_add(old(self).pending_staker_rewards, d.to_stakers) } else { old(self).pending_staker_rewards },
                None => old(self).pending_staker_rewards,
            },
            final(self).total_to_stakers == match fees {
                Some(d) => if d.to_stakers > 0 { sat_add(old(self).total_to_stakers, d.to_stakers) } else { old(self).total_to_stakers },
                None => old(self).total_to_stakers,
            },
    {
        let mut effects: Vec<RewardEffect> = Vec::new();
        let mut producer_credit: u64 = 0;
        if block_reward > 0 {
            self.total_minted = add_sat(self.total_minted, block_reward);
            push_producer(&mut effects, block_reward, producer_alive, has_pool);
            if producer_alive {
                producer_credit = block_reward;
            }
        }
        let ghost after_mint = effects@;
        match fees {
            Some(d) => {
                self.total_burned = add_sat(self.total_burned, d.burned);
                if d.to_producer > 0 {
                    self.total_to_producers = add_sat(self.total_to_producers, d.to_producer);
                    push_producer(&mut effects, d.to_producer, producer_alive, has_pool);
                    if producer_alive {
                        producer_credit = producer_credit + d.to_producer;
                    }
                }
                if d.to_stakers > 0 {
                    self.pending_staker_rewards = add_sat(self.pending_staker_rewards, d.to_stakers);
                    self.total_to_stakers = add_sat(self.total_to_stakers, d.to_stakers);
                }
            },
            None => {},
        }
        assert(effects@ =~= block_reward_effects(block_reward, fees, producer_alive, has_pool));
        (producer_credit, effects)
    }


    /// Distribute the pending staker rewards over `stakes` (one entry per
    /// staker): each staker is credited its pro-rata share
    /// `pending * stake / total_stake` (rounded down, zero shares skipped), in
    /// staker order; what the rounding left over goes out one unit at a time
    /// to the stakers with the largest stake (ties in list order) until it is
    /// used up. The distributed amount is taken from `pending_staker_rewards`
    /// (saturating) and returned. Nothing happens when nothing is pending,
    /// there is no staker, or the (saturating) total stake is zero.
    pub fn distribute_staker_rewards(&mut self, stakes: &Vec<u64>) -> (r: (u64, Vec<StakerCredit>))
        ensures
            ({
                let pool = old(self).pending_staker_rewards;
                let t = sat_fold(stakes@);
                if pool == 0 || stakes@.len() == 0 || t == 0 {
                    r.0 == 0 && r.1@.len() == 0 && *final(self) == *old(self)
                } else {
                    let d1 = sat_fold(shares(pool, stakes@, t));
                    let rem = sat_sub(pool, d1);
                    let dust: nat = if rem < stakes@.len() { rem as nat } else { stakes@.len() };
                    &&& r.0 == d1 + dust
                    &&& exists|order: Seq<usize>| is_desc_stable_order(stakes@, order)
                        && r.1@ == share_credits(pool, stakes@, t) + dust_credits(order, dust)
                    &&& *final(self) == (RewardAccumulator {
                        pending_staker_rewards: sat_sub(pool, r.0),
                        ..*old(self)
                    })
                    &&& credited_total(r.1@) == total(shares(pool, stakes@, t)) + dust
                    &&& (total(stakes@) <= u64::MAX ==> r.0 == pool && final(self).pending_staker_rewards == 0
                        && credited_total(r.1@) == pool)
                }
            }),
    {
        let mut credits: Vec<StakerCredit> = Vec::new();
        let pool = self.pending_staker_rewards;
        if pool == 0 || stakes.len() == 0 {
            proof {
                if stakes@.len() == 0 { assert(sat_fold(stakes@) == 0); }
            }
            return (0, credits);
        }
        let mut t: u64 = 0;
        let mut i: usize = 0;
        while i < stakes.len()
            invariant
                0 <= i <= stakes@.len(),
                t == sat_fold(stakes@.take(i as int)),
            decreases stakes@.len() - i,
        {
            proof { assert(stakes@.take(i + 1).drop_last() =~= stakes@.take(i as int)); }
            t = add_sat(t, stakes[i]);
            i = i + 1;
        }
        proof {
            assert(stakes@.take(stakes@.len() as int) =~= stakes@);
            lemma_sat_fold(stakes@);
        }
        if t == 0 {
            return (0, credits);
        }
        let ghost sh = shares(pool, stakes@, t);
        let mut distributed: u64 = 0;
        let mut i: usize = 0;
        while i < stakes.len()
            invariant
                0 <= i <= stakes@.len(),
                t > 0,
                t == sat_fold(stakes@),
                forall|j: int| 0 <= j < stakes@.len() ==> #[trigger] stakes@[j] <= t,
                sh == shares(pool, stakes@, t),
                distributed == sat_fold(sh.take(i as int)),
                credits@ == share_credits(pool, stakes@.take(i as int), t),
            decreases stakes@.len() - i,
        {
            let stake = stakes[i];
            proof {
                assert((pool as u128) * (stake as u128) <= u128::MAX) by (nonlinear_arith)
                    requires pool <= u64::MAX, stake <= u64::MAX;
            }
            let prod: u128 = (pool as u128) * (stake as u128);
            let q: u128 = prod / (t as u128);
            proof {
                assert(q <= pool) by (nonlinear_arith)
                    requires q == (pool * stake) / (t as int), stake <= t, t > 0, pool >= 0, stake >= 0;
                assert(sh.take(i + 1).drop_last() =~= sh.take(i as int));
                assert(stakes@.take(i + 1).drop_last() =~= stakes@.take(i as int));
            }
            let share = q as u64;
            if share > 0 {
                credits.push(StakerCredit { index: i, amount: share });
            }
            distributed = add_sat(distributed, share);
            i = i + 1;
        }
        proof {
            assert(sh.take(sh.len() as int) =~= sh);
            assert(stakes@.take(stakes@.len() as int) =~= stakes@);
        }
        let ghost d1 = distributed;
        let mut remainder = sub_sat(pool, distributed);
        let order = desc_stable_order(stakes);
        let ghost share_part = credits@;
        let mut j: usize = 0;
        while j < order.len() && remainder > 0
            invariant
                0 <= j <= order@.len(),
                order@.len() == stakes@.len(),
                is_desc_stable_order(stakes@, order@),
                remainder == sat_sub(pool, d1) - j,
                distributed == d1 + j,
                j <= sat_sub(pool, d1),
                sat_sub(pool, d1) > 0 ==> d1 + sat_sub(pool, d1) == pool,
                credits@ == share_part + dust_credits(order@, j as nat),
            decreases order@.len() - j,
        {
            credits.push(StakerCredit { index: order[j], amount: 1 });
            proof { assert(credits@ =~= share_part + dust_credits(order@, (j + 1) as nat)); }
            distributed = distributed + 1;
            remainder = remainder - 1;
            j = j + 1;
        }
        proof {
            lemma_sat_fold(sh);
            lemma_credited_shares(pool, stakes@, t);
            lemma_credited_dust(order@, j as nat);
            lemma_credited_concat(share_part, dust_credits(order@, j as nat));
            if total(stakes@) <= u64::MAX {
                lemma_share_bounds(pool, stakes@, t);
                assert(t as int == total(stakes@));
                let ff = total(sh);
                assert(ff <= pool && pool < ff + stakes@.len()) by (nonlinear_arith)
                    requires
                        t * ff <= pool * t,
                        pool * t <= t * ff + stakes@.len() * (t - 1),
                        t > 0,
                        stakes@.len() >= 1;
            }
        }
        self.pending_staker_rewards = sub_sat(self.pending_staker_rewards, distributed);
        (distributed, credits)
    }


    /// Process one block with attester rewards and validator commission.
    /// The block reward (`block_reward`, already APY-capped) counts as minted;
    /// without attesters it all goes the producer's way, else 60% (rounded
    /// down) does and the rest is split equally over the `attester_count`
    /// attesters, the remainder to the first. Fees split as in
    /// `process_block_rewards`, except that the staker share is first cut by
    /// `staker_split` into the net delegator part (which accrues to
    /// `pending_staker_rewards`) and the commission (which goes the producer's
    /// way and counts toward `total_to_producers`). Returns what the producer
    /// itself was credited.
    pub fn process_block_rewards_v2(
        &mut self,
        block_reward: u64,
        fees: Option<FeeDistribution>,
        staker_split: (u64, u64),
        producer_alive: bool,
        has_pool: bool,
        attester_count: usize,
    ) -> (r: (u64, Vec<RewardEffect>))
        requires
            attester_count > 0 ==> block_reward * 60 <= u64::MAX,
            producer_alive ==> (if block_reward > 0 { proposer_part(block_reward, attester_count as nat) as int } else { 0 })
                + match fees {
                    Some(d) => d.to_producer + (if d.to_stakers > 0 { staker_split.1 as int } else { 0 }),
                    None => 0,
                } <= u64::MAX,
        ensures
            r.1@ == block_reward_effects_v2(block_reward, fees, staker_split, producer_alive, has_pool, attester_count as nat),
            r.0 == (if block_reward > 0 && proposer_part(block_reward, attester_count as nat) > 0 {
                    producer_share(proposer_part(block_reward, attester_count as nat), producer_alive)
                } else { 0 })
                + match fees {
                    Some(d) => (if d.to_producer > 0 { producer_share(d.to_producer, producer_alive) } else { 0 })
                        + (if d.to_stakers > 0 && staker_split.1 > 0 { producer_share(staker_split.1, producer_alive) } else { 0 }),
                    None => 0,
                },
            final(self).total_minted == if block_reward > 0 { sat_add(old(self).total_minted, block_reward) } else { old(self).total_minted },
            final(self).total_burned == match fees { Some(d) => sat_add(old(self).total_burned, d.burned), None => old(self).total_burned },
            final(self).total_to_producers == match fees {
                Some(d) => {
                    let a = if d.to_producer > 0 { sat_add(old(self).total_to_producers, d.to_producer) } else { old(self).total_to_producers };
                    if d.to_stakers > 0 && staker_split.1 > 0 { sat_add(a, staker_split.1) } else { a }
                },
                None => old(self).total_to_producers,
            },
            final(self).pending_staker_rewards == match fees {
                Some(d) => if d.to_stakers > 0 && staker_split.0 > 0 { sat_add(old(self).pending_staker_rewards, staker_split.0) } else { old(self).pending_staker_rewards },
                None => old(self).pending_staker_rewards,
            },
            final(self).total_to_stakers == match fees {
                Some(d) => if d.to_stakers > 0 && staker_split.0 > 0 { sat_add(old(self).total_to_stakers, staker_split.0) } else { old(self).total_to_stakers },
                None => old(self).total_to_stakers,
            },
    {
        let mut effects: Vec<RewardEffect> = Vec::new();
        let mut producer_credit: u64 = 0;
        let ghost n = attester_count as nat;
        if block_reward > 0 {
            let (proposer_share, attester_total) = if attester_count == 0 {
                (block_reward, 0u64)
            } else {
                let p = block_reward * 60 / 100;
                (p, block_reward - p)
            };
            self.total_minted = add_sat(self.total_minted, block_reward);
            if proposer_share > 0 {
                push_producer(&mut effects, proposer_share, producer_alive, has_pool);
                if producer_alive {
                    producer_credit = proposer_share;
                }
            }
            let ghost before_att = effects@;
            if attester_total > 0 && attester_count > 0 {
                let per_attester = attester_total / attester_count as u64;
                proof {
                    assert(per_attester * attester_count <= attester_total) by (nonlinear_arith)
                        requires per_attester == (attester_total as int) / (attester_count as int), attester_count > 0;
                    assert(per_attester <= per_attester * attester_count) by (nonlinear_arith)
                        requires attester_count > 0, per_attester >= 0;
                }
                let dust = attester_total - per_attester * attester_count as u64;
                let mut i: usize = 0;
                while i < attester_count
                    invariant
                        0 <= i <= attester_count,
                        attester_count > 0,
                        per_attester == (attester_total as int) / (attester_count as int),
                        dust == attester_total - per_attester * attester_count,
                        per_attester * attester_count <= attester_total,
                        per_attester <= per_attester * attester_count,
                        effects@ == before_att + attester_credits(attester_total, attester_count as nat, i as nat),
                    decreases attester_count - i,
                {
                    let share = if i == 0 { per_attester + dust } else { per_attester };
                    if share > 0 {
                        effects.push(RewardEffect::CreditAttester(i, share));
                    }
                    i = i + 1;
                }
            }
            assert(effects@ =~= block_reward_effects_v2(block_reward, None, staker_split, producer_alive, has_pool, n));
        } else {
            assert(effects@ =~= block_reward_effects_v2(block_reward, None, staker_split, producer_alive, has_pool, n));
        }
        let ghost after_mint = effects@;
        match fees {
            Some(d) => {
                self.total_burned = add_sat(self.total_burned, d.burned);
                if d.to_producer > 0 {
                    self.total_to_producers = add_sat(self.total_to_producers, d.to_producer);
                    push_producer(&mut effects, d.to_producer, producer_alive, has_pool);
                    if producer_alive {
                        producer_credit = producer_credit + d.to_producer;
                    }
                }
                let ghost after_fee = effects@;
                if d.to_stakers > 0 {
                    let (net_staker, commission) = staker_split;
                    if commission > 0 {
                        push_producer(&mut effects, commission, producer_alive, has_pool);
                        if producer_alive {
                            producer_credit = producer_credit + commission;
                        }
                        self.total_to_producers = add_sat(self.total_to_producers, commission);
                    }
                    if net_staker > 0 {
                        self.pending_staker_rewards = add_sat(self.pending_staker_rewards, net_staker);
                        self.total_to_stakers = add_sat(self.total_to_stakers, net_staker);
                    }
                }
                assert(effects@ =~= block_reward_effects_v2(block_reward, fees, staker_split, producer_alive, has_pool, n));
            },
            None => {
                assert(effects@ =~= block_reward_effects_v2(block_reward, fees, staker_split, producer_alive, has_pool, n));
            },
        }
        (producer_credit, effects)
    }

    /// Totals, with the net supply change `minted − burned` (each as `i64`).
    pub fn summary(&self) -> (s: RewardSummary)
        requires
            i64::MIN <= (self.total_minted as i64) - (self.total_burned as i64) <= i64::MAX,
        ensures
            s == (RewardSummary {
                total_minted: self.total_minted,
                total_burned: self.total_burned,
                total_to_producers: self.total_to_producers,
                total_to_stakers: self.total_to_stakers,
                pending_staker_rewards: self.pending_staker_rewards,
                net_supply_change: ((self.total_minted as i64) - (self.total_burned as i64)) as i64,
            }),
    {
        RewardSummary {
            total_minted: self.total_minted,
            total_burned: self.total_burned,
            total_to_producers: self.total_to_producers,
            total_to_stakers: self.total_to_stakers,
            pending_staker_rewards: self.pending_staker_rewards,
            net_supply_change: self.total_minted as i64 - self.total_burned as i64,
        }
    }
}


/// What a list of effects credits to attesters.
pub open spec fn attester_paid(es: Seq<RewardEffect>) -> int
    decreases es.len(),
{
    if es.len() == 0 {
        0
    } else {
        attester_paid(es.drop_last()) + match es.last() {
            RewardEffect::CreditAttester(_, a) => a as int,
            _ => 0,
        }
    }
}

/// What a list of effects credits to the producer.
pub open spec fn producer_paid(es: Seq<RewardEffect>) -> int
    decreases es.len(),
{
    if es.len() == 0 {
        0
    } else {
        producer_paid(es.drop_last()) + match es.last() {
            RewardEffect::CreditProducer(a) => a as int,
            _ => 0,
        }
    }
}

/// What a list of effects redirects to the refresh pool.
pub open spec fn pool_paid(es: Seq<RewardEffect>) -> int
    decreases es.len(),
{
    if es.len() == 0 {
        0
    } else {
        pool_paid(es.drop_last()) + match es.last() {
            RewardEffect::RedirectToPool(a) => a as int,
            _ => 0,
        }
    }
}

proof fn lemma_paid_concat(a: Seq<RewardEffect>, b: Seq<RewardEffect>)
    ensures
        attester_paid(a + b) == attester_paid(a) + attester_paid(b),
        producer_paid(a + b) == producer_paid(a) + producer_paid(b),
        pool_paid(a + b) == pool_paid(a) + pool_paid(b),
    decreases b.len(),
{
    if b.len() > 0 {
        assert((a + b).drop_last() =~= a + b.drop_last());
        lemma_paid_concat(a, b.drop_last());
    } else {
        assert(a + b =~= a);
    }
}

proof fn lemma_attester_credits(att: u64, n: nat, k: nat)
    requires
        n > 0,
        k <= n,
        n <= usize::MAX,
    ensures
        attester_paid(attester_credits(att, n, k)) == if k == 0 { 0 } else { k * ((att as int) / (n as int)) + (att as int) % (n as int) },
        producer_paid(attester_credits(att, n, k)) == 0,
        pool_paid(attester_credits(att, n, k)) == 0,
        forall|j: int| 0 <= j < attester_credits(att, n, k).len() ==>
            (#[trigger] attester_credits(att, n, k)[j] matches RewardEffect::CreditAttester(i, a)
                && i < k && a == (att as int) / (n as int) + (if i == 0 { (att as int) % (n as int) } else { 0 })),
    decreases k,
{
    if k > 0 {
        lemma_attester_credits(att, n, (k - 1) as nat);
        let rest = attester_credits(att, n, (k - 1) as nat);
        let sh = attester_share(att, n, k - 1);
        let t: int = att as int;
        let m: int = n as int;
        let per: int = t / m;
        let rem: int = t % m;
        assert(t == m * per + rem && per >= 0 && rem >= 0 && per * m <= t) by (nonlinear_arith)
            requires m > 0, t >= 0, per == t / m, rem == t % m;
        assert(sh == per + (if k - 1 == 0 { rem } else { 0 }));
        assert(per + rem <= t) by (nonlinear_arith) requires t == m * per + rem, m >= 1, per >= 0, rem >= 0;
        assert(sh <= t);
        if sh > 0 {
            let cur = rest.push(RewardEffect::CreditAttester((k - 1) as usize, sh as u64));
            assert(attester_credits(att, n, k) == cur);
            assert(cur.drop_last() =~= rest);
            assert forall|j: int| 0 <= j < cur.len() implies
                (#[trigger] cur[j] matches RewardEffect::CreditAttester(i, a)
                    && i < k && a == per + (if i == 0 { rem } else { 0 })) by {
                if j < rest.len() {
                    assert(cur[j] == rest[j]);
                } else {
                    assert(cur[j] == RewardEffect::CreditAttester((k - 1) as usize, sh as u64));
                    assert((sh as u64) as int == sh);
                    assert(((k - 1) as usize) as int == k - 1);
                }
            }
        } else {
            assert(attester_credits(att, n, k) == rest);
        }
        let kk: int = k as int;
        if k - 1 == 0 {
            assert(kk * per + rem == per + rem) by (nonlinear_arith) requires kk == 1;
        } else {
            assert(kk * per == (kk - 1) * per + per) by (nonlinear_arith);
        }
    }
}

proof fn lemma_producer_effects_paid(amount: u64, alive: bool, has_pool: bool)
    ensures
        attester_paid(producer_effects(amount, alive, has_pool)) == 0,
        producer_paid(producer_effects(amount, alive, has_pool)) == if alive { amount as int } else { 0 },
        pool_paid(producer_effects(amount, alive, has_pool)) == if !alive && has_pool { amount as int } else { 0 },
{
    let es = producer_effects(amount, alive, has_pool);
    reveal_with_fuel(attester_paid, 2);
    reveal_with_fuel(producer_paid, 2);
    reveal_with_fuel(pool_paid, 2);
    if es.len() == 1 {
        assert(es.drop_last() =~= Seq::<RewardEffect>::empty());
    }
}

/// How a minted block reward is split when attesters are paid: the producer
/// gets 60% (rounded down), the other 40% is split equally over the
/// attesters with the division's remainder to the first one, and nothing is
/// lost: producer and attester credits add up to the whole reward. Without
/// attesters the producer gets all of it. A tombstoned producer is credited
/// nothing; its part goes to the refresh pool when one was supplied.
pub proof fn law_v2_mint_split(block_reward: u64, attesters: nat, alive: bool, has_pool: bool)
    requires
        block_reward > 0,
        attesters <= usize::MAX,
    ensures
        ({
            let es = block_reward_effects_v2(block_reward, None, (0, 0), alive, has_pool, attesters);
            let p: int = if attesters == 0 { block_reward as int } else { block_reward * 60 / 100 };
            let att: int = block_reward - p;
            &&& producer_paid(es) == if alive { p } else { 0 }
            &&& pool_paid(es) == if !alive && has_pool { p } else { 0 }
            &&& attester_paid(es) == if attesters == 0 { 0 } else { att }
            &&& alive ==> producer_paid(es) + attester_paid(es) == block_reward
            &&& forall|j: int| 0 <= j < es.len() ==>
                (#[trigger] es[j] matches RewardEffect::CreditAttester(i, a) ==>
                    i < attesters && a == att / (attesters as int) + (if i == 0 { att % (attesters as int) } else { 0 }))
        }),
{
    let es = block_reward_effects_v2(block_reward, None, (0, 0), alive, has_pool, attesters);
    let p = proposer_part(block_reward, attesters);
    let att = (block_reward - p) as u64;
    if attesters > 0 {
        assert(block_reward * 60 / 100 <= block_reward) by (nonlinear_arith) requires block_reward >= 0;
        assert(block_reward * 60 / 100 >= 0) by (nonlinear_arith) requires block_reward >= 0;
    }
    let pe: Seq<RewardEffect> = if p > 0 { producer_effects(p, alive, has_pool) } else { Seq::empty() };
    let ae: Seq<RewardEffect> = if att > 0 && attesters > 0 { attester_credits(att, attesters, attesters) } else { Seq::empty() };
    assert(es =~= (pe + ae) + Seq::<RewardEffect>::empty());
    assert(es =~= pe + ae);
    lemma_paid_concat(pe, ae);
    lemma_producer_effects_paid(p, alive, has_pool);
    if attesters > 0 {
        lemma_attester_credits(att, attesters, attesters);
        let t: int = att as int;
        let m: int = attesters as int;
        let per: int = t / m;
        let rem: int = t % m;
        assert(t == m * per + rem) by (nonlinear_arith) requires m > 0, per == t / m, rem == t % m;
        if att == 0 {
            assert(per == 0 && rem == 0) by (nonlinear_arith)
                requires t == 0, m > 0, per == t / m, rem == t % m;
        }
    }
    assert forall|j: int| 0 <= j < es.len() implies
        (#[trigger] es[j] matches RewardEffect::CreditAttester(i, a) ==>
            i < attesters && a == (att as int) / (attesters as int) + (if i == 0 { (att as int) % (attesters as int) } else { 0 })) by {
        if j < pe.len() {
            assert(es[j] == pe[j]);
        } else {
            assert(es[j] == ae[j - pe.len()]);
        }
    }
}

/// Where a block's producer-bound amounts go: a live producer is credited
/// the minted reward plus its fee share; a tombstoned producer is credited
/// nothing, and the same amount is redirected to the refresh pool when one
/// was supplied (else it goes nowhere). No attester is paid.
pub proof fn law_block_reward_routing(block_reward: u64, fees: Option<FeeDistribution>, alive: bool, has_pool: bool)
    ensures
        ({
            let es = block_reward_effects(block_reward, fees, alive, has_pool);
            let owed: int = block_reward + match fees { Some(d) => d.to_producer as int, None => 0 };
            &&& producer_paid(es) == if alive { owed } else { 0 }
            &&& pool_paid(es) == if !alive && has_pool { owed } else { 0 }
            &&& attester_paid(es) == 0
        }),
{
    let minted = if block_reward > 0 { producer_effects(block_reward, alive, has_pool) } else { Seq::empty() };
    let fee_part = match fees {
        Some(d) => if d.to_producer > 0 { producer_effects(d.to_producer, alive, has_pool) } else { Seq::empty() },
        None => Seq::empty(),
    };
    lemma_paid_concat(minted, fee_part);
    lemma_producer_effects_paid(block_reward, alive, has_pool);
    match fees {
        Some(d) => { lemma_producer_effects_paid(d.to_producer, alive, has_pool); },
        None => {},
    }
}

} // verus!
