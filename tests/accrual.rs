use contract::asset_farm::{AssetFarm, AssetFarmReward, VAssetFarmReward};
use contract::math::{scaled_fraction, u128_ratio_capped, NANOS_PER_DAY, SCALE};
use contract::per_share::RewardPerShare;

fn reward(reward_per_day: u128, remaining_rewards: u128, boosted_shares: u128) -> AssetFarmReward {
    AssetFarmReward {
        reward_per_day,
        booster_log_base: 100,
        remaining_rewards,
        boosted_shares,
        reward_per_share: RewardPerShare::zero(),
    }
}

fn farm_with(t0: u64, token: &str, r: AssetFarmReward) -> AssetFarm {
    let mut farm = AssetFarm::new(t0);
    farm.rewards.insert(token.to_string(), r);
    farm
}

fn active(farm: &AssetFarm, token: &str) -> Option<AssetFarmReward> {
    farm.rewards.get(&token.to_string()).copied()
}

#[test]
fn ratio_exact_values() {
    assert_eq!(u128_ratio_capped(10, 3, 4, 100), 7);
    assert_eq!(u128_ratio_capped(10, 3, 4, 5), 5);
    assert_eq!(u128_ratio_capped(1 << 100, 1 << 40, 1 << 50, u128::MAX), 1 << 90);
    assert_eq!(u128_ratio_capped(u128::MAX, u64::MAX, u64::MAX, u128::MAX), u128::MAX);
    assert_eq!(u128_ratio_capped(u128::MAX, 2, 1, 42), 42);
    assert_eq!(u128_ratio_capped(0, u64::MAX, 1, 42), 0);
}

#[test]
fn fraction_digits() {
    assert_eq!(scaled_fraction(1, 3), 333_333_333_333_333_333_333_333);
    assert_eq!(scaled_fraction(2, 3), 666_666_666_666_666_666_666_666);
    assert_eq!(scaled_fraction(0, 7), 0);
    assert_eq!(scaled_fraction(1, 4), SCALE / 4);
    assert_eq!(scaled_fraction(u128::MAX - 1, u128::MAX), SCALE - 1);
}

#[test]
fn per_share_adds_and_carries() {
    let mut rps = RewardPerShare::zero();
    rps.add_share(1, 3);
    rps.add_share(1, 3);
    rps.add_share(1, 3);
    assert_eq!(rps.whole, 0);
    assert_eq!(rps.frac, 999_999_999_999_999_999_999_999);
    rps.add_share(2, 3);
    assert_eq!(rps.whole, 1);
    assert_eq!(rps.frac, 666_666_666_666_666_666_666_665);
    rps.add_share(7, 2);
    assert_eq!(rps.whole, 5);
    assert_eq!(rps.frac, 166_666_666_666_666_666_666_665);
}

#[test]
fn two_day_example() {
    let t0 = 1_000;
    let mut farm = farm_with(t0, "reward.near", reward(8_640_000, 17_280_000, 1_000_000));
    farm.update(t0 + NANOS_PER_DAY);
    let r = active(&farm, "reward.near").unwrap();
    assert_eq!(r.remaining_rewards, 8_640_000);
    assert_eq!(r.reward_per_share.whole, 8);
    assert_eq!(r.reward_per_share.frac, 640_000_000_000_000_000_000_000);
    farm.update(t0 + 2 * NANOS_PER_DAY);
    assert!(active(&farm, "reward.near").is_none());
    let r = farm.internal_get_inactive_asset_farm_reward(&"reward.near".to_string()).unwrap();
    assert_eq!(r.remaining_rewards, 0);
    assert_eq!(r.reward_per_share.whole, 17);
    assert_eq!(r.reward_per_share.frac, 280_000_000_000_000_000_000_000);
    assert_eq!(farm.block_timestamp, t0 + 2 * NANOS_PER_DAY);
}

#[test]
fn second_day_clamped_to_remaining() {
    let t0 = 5;
    let mut farm = farm_with(t0, "reward.near", reward(8_640_000, 13_640_000, 1_000_000));
    farm.update(t0 + NANOS_PER_DAY);
    let r = active(&farm, "reward.near").unwrap();
    assert_eq!(r.remaining_rewards, 5_000_000);
    farm.update(t0 + 2 * NANOS_PER_DAY);
    let r = farm.internal_get_inactive_asset_farm_reward(&"reward.near".to_string()).unwrap();
    // 5_000_000 acquired on the second day, not 8_640_000: 8.64 + 5.00
    assert_eq!(r.remaining_rewards, 0);
    assert_eq!(r.reward_per_share.whole, 13);
    assert_eq!(r.reward_per_share.frac, 640_000_000_000_000_000_000_000);
}

#[test]
fn partial_day_truncates() {
    let mut farm = farm_with(0, "t", reward(10, 1_000, 3));
    farm.update(NANOS_PER_DAY / 4);
    let r = active(&farm, "t").unwrap();
    // 10 * 1/4 = 2.5, truncated to 2; 2 / 3 per share
    assert_eq!(r.remaining_rewards, 998);
    assert_eq!(r.reward_per_share.whole, 0);
    assert_eq!(r.reward_per_share.frac, 666_666_666_666_666_666_666_666);
}

#[test]
fn repeated_timestamp_is_a_no_op() {
    let mut once = farm_with(0, "t", reward(8_640_000, 17_280_000, 3));
    once.rewards.insert("idle".to_string(), reward(1, 1, 0));
    let mut twice = once.clone();
    once.update(NANOS_PER_DAY / 3);
    twice.update(NANOS_PER_DAY / 3);
    twice.update(NANOS_PER_DAY / 3);
    assert_eq!(once.block_timestamp, twice.block_timestamp);
    assert_eq!(once.rewards.entries, twice.rewards.entries);
    assert_eq!(once.inactive_rewards.entries, twice.inactive_rewards.entries);
    let before = once.clone();
    once.update(NANOS_PER_DAY / 3);
    assert_eq!(before.rewards.entries, once.rewards.entries);
}

#[test]
fn per_share_never_decreases() {
    let mut farm = farm_with(0, "t", reward(1_000_000, 10_000_000, 7));
    let mut last = RewardPerShare::zero();
    let mut now = 0;
    for (i, step) in [1u64, NANOS_PER_DAY, 3, NANOS_PER_DAY * 2, 0, 10].iter().enumerate() {
        now += step;
        if i == 3 {
            farm.rewards.entries[0].1.boosted_shares = 0;
        }
        if i == 4 {
            farm.rewards.entries[0].1.boosted_shares = 1_000;
        }
        farm.update(now);
        let r = match active(&farm, "t") {
            Some(r) => r,
            None => farm.internal_get_inactive_asset_farm_reward(&"t".to_string()).unwrap(),
        };
        let cur = r.reward_per_share;
        assert!((cur.whole, cur.frac) >= (last.whole, last.frac));
        last = cur;
    }
}

#[test]
fn zero_shares_freeze() {
    let r0 = reward(8_640_000, 17_280_000, 0);
    let mut farm = farm_with(0, "t", r0);
    farm.rewards.insert("empty".to_string(), reward(8_640_000, 0, 0));
    farm.update(NANOS_PER_DAY * 100);
    farm.update(NANOS_PER_DAY * 1_000);
    assert_eq!(active(&farm, "t"), Some(r0));
    // an exhausted reward with no shares is not retired
    assert_eq!(active(&farm, "empty").unwrap().remaining_rewards, 0);
    assert!(farm.internal_get_inactive_asset_farm_reward(&"empty".to_string()).is_none());
    assert_eq!(farm.block_timestamp, NANOS_PER_DAY * 1_000);
}

#[test]
fn retirement_keeps_the_record() {
    let mut farm = farm_with(0, "t", reward(100, 50, 10));
    farm.rewards.insert("u".to_string(), reward(100, 1_000, 10));
    farm.update(NANOS_PER_DAY);
    assert!(active(&farm, "t").is_none());
    let r = farm.internal_get_inactive_asset_farm_reward(&"t".to_string()).unwrap();
    assert_eq!(r.remaining_rewards, 0);
    assert_eq!(r.boosted_shares, 10);
    assert_eq!(r.booster_log_base, 100);
    assert_eq!(r.reward_per_share.whole, 5);
    assert_eq!(active(&farm, "u").unwrap().remaining_rewards, 900);
    farm.update(NANOS_PER_DAY * 20);
    assert!(active(&farm, "t").is_none());
    assert!(active(&farm, "u").is_none());
    assert_eq!(farm.inactive_rewards.entries.len(), 2);
}

#[test]
fn inactive_store_get_set_remove() {
    let mut farm = AssetFarm::new(0);
    let id = "r.near".to_string();
    assert!(farm.internal_get_inactive_asset_farm_reward(&id).is_none());
    assert!(farm.internal_remove_inactive_asset_farm_reward(&id).is_none());
    let a = reward(1, 0, 2);
    let b = reward(3, 0, 4);
    farm.internal_set_inactive_asset_farm_reward(&id, a);
    assert_eq!(farm.internal_get_inactive_asset_farm_reward(&id), Some(a));
    farm.internal_set_inactive_asset_farm_reward(&id, b);
    assert_eq!(farm.inactive_rewards.entries.len(), 1);
    assert_eq!(farm.inactive_rewards.entries[0].1, VAssetFarmReward::Current(b));
    assert_eq!(farm.internal_remove_inactive_asset_farm_reward(&id), Some(b));
    assert!(farm.internal_get_inactive_asset_farm_reward(&id).is_none());
    assert_eq!(AssetFarmReward::from(VAssetFarmReward::from(a)), a);
}

#[test]
fn clone_is_independent() {
    let farm = farm_with(0, "t", reward(1, 2, 3));
    let mut copy = farm.clone();
    copy.internal_set_inactive_asset_farm_reward(&"x".to_string(), reward(0, 0, 0));
    copy.update(NANOS_PER_DAY);
    assert_eq!(farm.inactive_rewards.entries.len(), 0);
    assert_eq!(active(&farm, "t").unwrap().remaining_rewards, 2);
    assert_eq!(farm.block_timestamp, 0);
}
