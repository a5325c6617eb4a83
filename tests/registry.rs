use contract::asset_farm::{AssetFarm, AssetFarmReward};
use contract::math::NANOS_PER_DAY;
use contract::per_share::RewardPerShare;
use contract::registry::{Contract, FarmCache, FarmId};

fn reward(reward_per_day: u128, remaining_rewards: u128, boosted_shares: u128) -> AssetFarmReward {
    AssetFarmReward {
        reward_per_day,
        booster_log_base: 0,
        remaining_rewards,
        boosted_shares,
        reward_per_share: RewardPerShare::zero(),
    }
}

fn assets() -> Vec<String> {
    vec!["a.near".to_string(), "b.near".to_string(), "c.near".to_string()]
}

/// A registry over three assets with a farm for each of the six farm ids.
fn registry() -> Contract {
    let mut c = Contract::new(assets());
    let mut setup = FarmCache::new(0);
    for (i, a) in assets().into_iter().enumerate() {
        for id in [FarmId::Supplied(a.clone()), FarmId::Borrowed(a.clone())] {
            let mut farm = AssetFarm::new(0);
            farm.rewards.insert("r".to_string(), reward(1_000, 10_000 + i as u128, 10));
            c.internal_set_asset_farm(&mut setup, &id, farm);
        }
    }
    c
}

fn remaining(farm: &AssetFarm) -> u128 {
    farm.rewards.get(&"r".to_string()).unwrap().remaining_rewards
}

fn ids(pairs: &[(FarmId, AssetFarm)]) -> Vec<FarmId> {
    pairs.iter().map(|(id, _)| id.clone()).collect()
}

#[test]
fn read_accrues_once_per_execution() {
    let c = registry();
    let mut cache = FarmCache::new(NANOS_PER_DAY);
    let id = FarmId::Supplied("a.near".to_string());
    let first = c.get_asset_farm(&mut cache, id.clone()).unwrap();
    assert_eq!(first.block_timestamp, NANOS_PER_DAY);
    assert_eq!(remaining(&first), 9_000);
    let second = c.internal_unwrap_asset_farm(&mut cache, &id);
    assert_eq!(second.block_timestamp, first.block_timestamp);
    assert_eq!(second.rewards.entries, first.rewards.entries);
    // the durable record is untouched by reads
    let mut later = FarmCache::new(2 * NANOS_PER_DAY);
    assert_eq!(remaining(&c.get_asset_farm(&mut later, id).unwrap()), 8_000);
}

#[test]
fn write_then_read_sees_the_write() {
    let mut c = registry();
    let mut cache = FarmCache::new(NANOS_PER_DAY);
    let id = FarmId::Borrowed("b.near".to_string());
    let mut farm = c.internal_unwrap_asset_farm(&mut cache, &id);
    assert_eq!(remaining(&farm), 9_001);
    farm.rewards.entries[0].1.remaining_rewards = 77;
    c.internal_set_asset_farm(&mut cache, &id, farm);
    let read = c.get_asset_farm(&mut cache, id.clone()).unwrap();
    assert_eq!(remaining(&read), 77);
    let mut next = FarmCache::new(NANOS_PER_DAY);
    assert_eq!(remaining(&c.get_asset_farm(&mut next, id).unwrap()), 77);
}

#[test]
fn missing_farm_is_none_and_cached() {
    let c = registry();
    let mut cache = FarmCache::new(10);
    let id = FarmId::Supplied("zzz.near".to_string());
    assert!(c.get_asset_farm(&mut cache, id.clone()).is_none());
    assert!(c.get_asset_farm(&mut cache, id).is_none());
}

#[test]
fn get_many_drops_missing_and_keeps_order() {
    let c = registry();
    let mut cache = FarmCache::new(0);
    let request = vec![
        FarmId::Borrowed("c.near".to_string()),
        FarmId::Supplied("nope".to_string()),
        FarmId::Supplied("a.near".to_string()),
    ];
    let got = c.get_asset_farms(&mut cache, request);
    assert_eq!(
        ids(&got),
        vec![FarmId::Borrowed("c.near".to_string()), FarmId::Supplied("a.near".to_string())]
    );
    assert_eq!(remaining(&got[0].1), 10_002);
}

#[test]
fn paging_continues_without_gaps() {
    let c = registry();
    let mut cache = FarmCache::new(NANOS_PER_DAY);
    let first = c.get_asset_farms_paged(&mut cache, Some(0), Some(2));
    let second = c.get_asset_farms_paged(&mut cache, Some(2), Some(2));
    let all = c.get_asset_farms_paged(&mut cache, Some(0), Some(6));
    assert_eq!(first.len(), 4);
    assert_eq!(second.len(), 2);
    let mut joined = ids(&first);
    joined.extend(ids(&second));
    assert_eq!(joined, ids(&all));
    assert_eq!(
        ids(&all),
        vec![
            FarmId::Supplied("a.near".to_string()),
            FarmId::Borrowed("a.near".to_string()),
            FarmId::Supplied("b.near".to_string()),
            FarmId::Borrowed("b.near".to_string()),
            FarmId::Supplied("c.near".to_string()),
            FarmId::Borrowed("c.near".to_string()),
        ]
    );
}

#[test]
fn paging_defaults_and_bounds() {
    let c = registry();
    let mut cache = FarmCache::new(0);
    assert_eq!(c.get_asset_farms_paged(&mut cache, None, None).len(), 6);
    assert_eq!(c.get_asset_farms_paged(&mut cache, Some(1), None).len(), 4);
    assert_eq!(c.get_asset_farms_paged(&mut cache, Some(3), Some(5)).len(), 0);
    assert_eq!(c.get_asset_farms_paged(&mut cache, Some(u64::MAX), Some(u64::MAX)).len(), 0);
    assert_eq!(c.get_asset_farms_paged(&mut cache, Some(1), Some(u64::MAX)).len(), 4);
    assert_eq!(c.get_asset_farms_paged(&mut cache, Some(0), Some(0)).len(), 0);
}
