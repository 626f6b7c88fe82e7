use evaporchain_execution::rewards::{
    apy_scaled_base_reward, FeeDistribution, RewardAccumulator, RewardEffect, StakerCredit,
};

/// Producer balance and refresh-pool total after applying `effects`.
fn apply(effects: &[RewardEffect]) -> (u64, u64) {
    let mut producer = 0u64;
    let mut pool = 0u64;
    for e in effects {
        match e {
            RewardEffect::CreditProducer(a) => producer = producer.saturating_add(*a),
            RewardEffect::RedirectToPool(a) => pool += *a,
            RewardEffect::CreditAttester(_, _) => {}
        }
    }
    (producer, pool)
}

/// The split of `fees` under a 50% burn rate and a 50% staker share.
fn half_split(fees: u64) -> FeeDistribution {
    let burned = fees / 2;
    let rest = fees - burned;
    let to_stakers = rest / 2;
    FeeDistribution { burned, to_producer: rest - to_stakers, to_stakers }
}

fn credited(credits: &[StakerCredit], index: usize) -> u64 {
    credits.iter().filter(|c| c.index == index).map(|c| c.amount).sum()
}

#[test]
fn test_block_reward_minted_to_producer() {
    let mut acc = RewardAccumulator::new();
    let (credit, effects) = acc.process_block_rewards(100, None, true, false);
    assert_eq!(credit, 100);
    assert_eq!(apply(&effects).0, 100);
    assert_eq!(acc.total_minted, 100);
}

#[test]
fn test_block_reward_redirects_to_refresh_pool_when_producer_dead() {
    let mut acc = RewardAccumulator::new();
    let (credit, effects) = acc.process_block_rewards(100, None, false, true);
    assert_eq!(credit, 0, "dead producer must receive nothing");
    assert_eq!(apply(&effects).0, 0, "tombstoned account balance must not change");
    assert_eq!(acc.total_minted, 100);
    assert_eq!(apply(&effects).1, 100, "refresh pool must absorb the redirected block reward");
}

#[test]
fn test_fee_share_redirects_to_refresh_pool_when_producer_dead() {
    let mut acc = RewardAccumulator::new();
    let (credit, effects) = acc.process_block_rewards(100, Some(half_split(1000)), false, true);
    assert_eq!(credit, 0, "dead producer credit must be zero");
    assert_eq!(apply(&effects).0, 0);
    assert_eq!(apply(&effects).1, 350);
    assert_eq!(acc.pending_staker_rewards, 250);
    assert_eq!(acc.total_burned, 500);
}

#[test]
fn test_priority_bonus_redirects_when_producer_dead() {
    let mut acc = RewardAccumulator::new();
    let (bonus, effects) = acc.apply_priority_bonus(10_000, 1_000, false, true);
    assert_eq!(bonus, 0, "dead producer's priority bonus must be zero");
    assert_eq!(apply(&effects).0, 0);
    assert_eq!(apply(&effects).1, 10);
    assert_eq!(acc.total_minted, 10);
}

#[test]
fn test_priority_bonus_minted_to_producer() {
    let mut acc = RewardAccumulator::new();
    let (bonus, effects) = acc.apply_priority_bonus(10_000, 1_000, true, false);
    assert_eq!(bonus, 10);
    assert_eq!(effects, vec![RewardEffect::CreditProducer(10)]);
    assert_eq!(acc.total_minted, 10);
}

#[test]
fn test_priority_bonus_zero_scale_disables() {
    let mut acc = RewardAccumulator::new();
    let (bonus, effects) = acc.apply_priority_bonus(1_000_000, 0, true, false);
    assert_eq!(bonus, 0);
    assert!(effects.is_empty());
    assert_eq!(acc.total_minted, 0);
}

#[test]
fn test_priority_bonus_sub_unit_yields_zero() {
    let mut acc = RewardAccumulator::new();
    let (bonus, effects) = acc.apply_priority_bonus(100, 1_000, true, false);
    assert_eq!(bonus, 0);
    assert!(effects.is_empty());
}

#[test]
fn test_fee_distribution_to_producer_and_stakers() {
    let mut acc = RewardAccumulator::new();
    let (credit, _) = acc.process_block_rewards(100, Some(half_split(1000)), true, false);
    assert_eq!(credit, 350);
    assert_eq!(acc.total_burned, 500);
    assert_eq!(acc.pending_staker_rewards, 250);
}

#[test]
fn test_staker_reward_distribution() {
    let mut acc = RewardAccumulator::new();
    acc.process_block_rewards(100, Some(half_split(2000)), true, false);
    assert_eq!(acc.pending_staker_rewards, 500);

    let stakes = vec![750u64, 250];
    let (distributed, credits) = acc.distribute_staker_rewards(&stakes);
    assert_eq!(distributed, 500);
    assert_eq!(credited(&credits, 0), 375);
    assert_eq!(credited(&credits, 1), 125);
    assert_eq!(acc.pending_staker_rewards, 0);
}

#[test]
fn test_zero_fees_no_distribution() {
    let mut acc = RewardAccumulator::new();
    let (credit, _) = acc.process_block_rewards(100, None, true, false);
    assert_eq!(credit, 100);
    assert_eq!(acc.total_burned, 0);
    assert_eq!(acc.pending_staker_rewards, 0);
}

#[test]
fn test_all_fees_burned() {
    let mut acc = RewardAccumulator::new();
    let all_burned = FeeDistribution { burned: 1000, to_producer: 0, to_stakers: 0 };
    let (credit, _) = acc.process_block_rewards(100, Some(all_burned), true, false);
    assert_eq!(credit, 100);
    assert_eq!(acc.total_burned, 1000);
    assert_eq!(acc.pending_staker_rewards, 0);
}

#[test]
fn test_no_block_reward() {
    let mut acc = RewardAccumulator::new();
    let (credit, effects) = acc.process_block_rewards(0, Some(half_split(1000)), true, false);
    assert_eq!(credit, 250);
    assert_eq!(effects, vec![RewardEffect::CreditProducer(250)]);
    assert_eq!(acc.total_minted, 0);
}

#[test]
fn test_reward_summary() {
    let mut acc = RewardAccumulator::new();
    acc.process_block_rewards(100, Some(half_split(2000)), true, false);
    let summary = acc.summary();
    assert_eq!(summary.total_minted, 100);
    assert_eq!(summary.total_burned, 1000);
    assert_eq!(summary.net_supply_change, -900);
}

#[test]
fn test_multi_block_accumulation() {
    let mut acc = RewardAccumulator::new();
    let mut balance = 0u64;
    for _ in 0..10u64 {
        let (credit, _) = acc.process_block_rewards(100, Some(half_split(100)), true, false);
        balance += credit;
    }
    assert!(acc.total_minted >= 1000);
    assert!(balance > 1000);
    assert_eq!(acc.total_minted, 1000);
    assert_eq!(balance, 1250);
}

#[test]
fn test_commission_splits_staker_pool_v2() {
    let mut acc = RewardAccumulator::new();
    let fees = half_split(1000);
    // 10% commission on the staker pool of 250.
    let (credit, effects) =
        acc.process_block_rewards_v2(100, Some(fees), (225, 25), true, false, 1);
    assert_eq!(credit, 335, "producer credit with 10% commission");
    assert_eq!(acc.pending_staker_rewards, 225, "delegators get 90% of staker pool");
    assert_eq!(acc.total_burned, 500);
    assert!(effects.contains(&RewardEffect::CreditAttester(0, 40)));
}

#[test]
fn test_zero_commission_v2_matches_no_commission() {
    let mut acc = RewardAccumulator::new();
    let (credit, _) = acc.process_block_rewards_v2(100, Some(half_split(1000)), (250, 0), true, false, 0);
    assert_eq!(acc.pending_staker_rewards, 250);
    assert_eq!(acc.total_burned, 500);
    let mut plain = RewardAccumulator::new();
    let (plain_credit, _) = plain.process_block_rewards(100, Some(half_split(1000)), true, false);
    assert_eq!(credit, plain_credit);
    assert_eq!(acc, plain);
}

#[test]
fn test_commission_redirects_when_producer_dead() {
    let mut acc = RewardAccumulator::new();
    let (credit, effects) =
        acc.process_block_rewards_v2(100, Some(half_split(1000)), (225, 25), false, true, 0);
    assert_eq!(credit, 0, "dead producer receives nothing");
    assert_eq!(apply(&effects).1, 375, "all producer-bound amounts redirected");
    assert_eq!(acc.pending_staker_rewards, 225, "net delegator share preserved");
}

#[test]
fn t1_20_distribute_staker_rewards_dust_remainder() {
    let mut acc = RewardAccumulator::new();
    acc.pending_staker_rewards = 100;
    let stakes = vec![1u64, 1, 1];
    let (distributed, credits) = acc.distribute_staker_rewards(&stakes);
    assert_eq!(distributed, 100, "dust-loop must reclaim the rounding remainder");
    assert_eq!(acc.pending_staker_rewards, 0);
    let sum: u64 = credits.iter().map(|c| c.amount).sum();
    assert_eq!(sum, 100);
    assert_eq!(credited(&credits, 0), 34);
}

#[test]
fn t1_20_apply_priority_bonus_redirects_when_producer_dead() {
    let mut acc = RewardAccumulator::new();
    let (credit, effects) = acc.apply_priority_bonus(1_000_000, 1_000, false, true);
    assert_eq!(credit, 0);
    assert_eq!(apply(&effects), (0, 1000));
    assert_eq!(acc.total_minted, 1000);
}

#[test]
fn t1_20_apply_priority_bonus_dead_no_pool_returns_zero() {
    let mut acc = RewardAccumulator::new();
    let (credit, effects) = acc.apply_priority_bonus(1_000_000, 1_000, false, false);
    assert_eq!(credit, 0);
    assert!(effects.is_empty());
    assert_eq!(acc.total_minted, 1000);
}

#[test]
fn t1_20_process_block_rewards_redirects_when_producer_dead() {
    let mut acc = RewardAccumulator::new();
    let (credit, effects) = acc.process_block_rewards(100, None, false, true);
    assert_eq!(credit, 0);
    assert_eq!(effects, vec![RewardEffect::RedirectToPool(100)]);
    assert_eq!(acc.total_minted, 100);
}

#[test]
fn dust_goes_to_largest_stakes_first() {
    let mut acc = RewardAccumulator::new();
    acc.pending_staker_rewards = 10;
    // Shares: 10*1/7 = 1, 10*5/7 = 7, 10*1/7 = 1 → 9; one unit of dust to index 1.
    let (distributed, credits) = acc.distribute_staker_rewards(&vec![1, 5, 1]);
    assert_eq!(distributed, 10);
    assert_eq!(credited(&credits, 1), 8);
    assert_eq!(credited(&credits, 0), 1);
    assert_eq!(credited(&credits, 2), 1);
}

#[test]
fn staker_distribution_is_a_no_op_without_stake() {
    let mut acc = RewardAccumulator::new();
    acc.pending_staker_rewards = 10;
    let (distributed, credits) = acc.distribute_staker_rewards(&vec![0, 0]);
    assert_eq!(distributed, 0);
    assert!(credits.is_empty());
    assert_eq!(acc.pending_staker_rewards, 10);
    let (distributed, _) = acc.distribute_staker_rewards(&vec![]);
    assert_eq!(distributed, 0);
}

#[test]
fn attester_split_gives_remainder_to_first() {
    let mut acc = RewardAccumulator::new();
    // 60% of 101 = 60 to the producer; 41 over three attesters: 13 each, 2 extra to the first.
    let (credit, effects) = acc.process_block_rewards_v2(101, None, (0, 0), true, false, 3);
    assert_eq!(credit, 60);
    assert_eq!(
        effects,
        vec![
            RewardEffect::CreditProducer(60),
            RewardEffect::CreditAttester(0, 15),
            RewardEffect::CreditAttester(1, 13),
            RewardEffect::CreditAttester(2, 13),
        ]
    );
    assert_eq!(acc.total_minted, 101);
}

#[test]
fn apy_scaling_of_base_reward() {
    assert_eq!(apy_scaled_base_reward(100, 100, 40, true), 40);
    assert_eq!(apy_scaled_base_reward(100, 50, 25, true), 50);
    assert_eq!(apy_scaled_base_reward(100, 0, 25, true), 100);
    assert_eq!(apy_scaled_base_reward(100, 100, 40, false), 100);
    assert_eq!(apy_scaled_base_reward(u64::MAX, 2, 2, true), u64::MAX / 2);
}

#[test]
fn totals_saturate() {
    let mut acc = RewardAccumulator::new();
    acc.total_minted = u64::MAX - 1;
    acc.process_block_rewards(100, None, true, false);
    assert_eq!(acc.total_minted, u64::MAX);
}
