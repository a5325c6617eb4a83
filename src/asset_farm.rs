//! The reward snapshot of one farm, its accrual over logical time, and the
//! store of rewards whose budget is exhausted.
use vstd::prelude::*;
use crate::math::{NANOS_PER_DAY, capped_ratio, u128_ratio_capped};
use crate::per_share::{RewardPerShare, max_units, share_units};
use crate::math::SCALE;
use vstd::arithmetic::div_mod::lemma_fundamental_div_mod;
use crate::token_map::{TokenId, TokenMap, entries_map, keys_unique, lemma_entries_map_dom,
    lemma_entries_map_index};

verus! {

/// Logical time in nanoseconds.
pub type Timestamp = u64;

/// An amount of a token in its smallest units.
pub type Balance = u128;

/// One reward token distributed by a farm.
#[derive(Clone, Copy, Debug, Default, PartialEq, Eq, Structural)]
pub struct AssetFarmReward {
    /// The amount of reward distributed per day.
    pub reward_per_day: Balance,
    /// The log base for the booster, used to compute boosted shares per
    /// account. Includes the booster's decimals.
    pub booster_log_base: Balance,
    /// The amount of rewards remaining to distribute.
    pub remaining_rewards: Balance,
    /// The total number of boosted shares.
    pub boosted_shares: Balance,
    /// Cumulative reward issued per boosted share.
    pub reward_per_share: RewardPerShare,
}

/// The durable envelope of an inactive reward.
#[derive(Clone, Copy, Debug, PartialEq, Eq, Structural)]
pub enum VAssetFarmReward {
    Current(AssetFarmReward),
}

impl VAssetFarmReward {
    pub open spec fn reward(self) -> AssetFarmReward {
        match self {
            VAssetFarmReward::Current(c) => c,
        }
    }
}

impl From<VAssetFarmReward> for AssetFarmReward {
    fn from(v: VAssetFarmReward) -> (r: AssetFarmReward) {
        match v {
            VAssetFarmReward::Current(c) => c,
        }
    }
}

impl vstd::std_specs::convert::FromSpecImpl<VAssetFarmReward> for AssetFarmReward {
    open spec fn obeys_from_spec() -> bool {
        true
    }

    open spec fn from_spec(v: VAssetFarmReward) -> AssetFarmReward {
        v.reward()
    }
}

impl From<AssetFarmReward> for VAssetFarmReward {
    fn from(c: AssetFarmReward) -> (r: VAssetFarmReward) {
        VAssetFarmReward::Current(c)
    }
}

impl vstd::std_specs::convert::FromSpecImpl<AssetFarmReward> for VAssetFarmReward {
    open spec fn obeys_from_spec() -> bool {
        true
    }

    open spec fn from_spec(c: AssetFarmReward) -> VAssetFarmReward {
        VAssetFarmReward::Current(c)
    }
}

/// The reward budget released over `dt` nanoseconds, capped by what remains;
/// nothing is released while no shares accrue.
pub open spec fn acquired(r: AssetFarmReward, dt: nat) -> int {
    if r.boosted_shares == 0 {
        0
    } else {
        capped_ratio(r.reward_per_day as int, dt as int, NANOS_PER_DAY as int, r.remaining_rewards as int)
    }
}

/// The reward after `dt` nanoseconds of accrual.
pub open spec fn accrued(r: AssetFarmReward, dt: nat) -> AssetFarmReward {
    if r.boosted_shares == 0 {
        r
    } else {
        let a = acquired(r, dt);
        AssetFarmReward {
            remaining_rewards: (r.remaining_rewards - a) as u128,
            reward_per_share: r.reward_per_share.plus(share_units(a, r.boosted_shares as int)),
            ..r
        }
    }
}

/// Accruing over `dt` keeps the per-share accumulator representable.
pub open spec fn accrual_fits(r: AssetFarmReward, dt: nat) -> bool {
    &&& r.reward_per_share.wf()
    &&& r.boosted_shares > 0 ==> r.reward_per_share@ + share_units(acquired(r, dt), r.boosted_shares as int)
        <= max_units()
}

/// An accrued reward that has handed out its whole budget and retires.
pub open spec fn retires(r: AssetFarmReward) -> bool {
    r.boosted_shares > 0 && r.remaining_rewards == 0
}

impl AssetFarmReward {
    /// Advances this reward by `dt` nanoseconds of logical time.
    pub fn accrue(&mut self, dt: u64)
        requires
            accrual_fits(*old(self), dt as nat),
        ensures
            *final(self) == accrued(*old(self), dt as nat),
    {
        if self.boosted_shares == 0 {
            return;
        }
        let acquired = u128_ratio_capped(self.reward_per_day, dt, NANOS_PER_DAY, self.remaining_rewards);
        self.remaining_rewards = self.remaining_rewards - acquired;
        self.reward_per_share.add_share(acquired, self.boosted_shares);
    }
}

/// The reward with its boosted shares set to `shares`, as the staking side
/// does between accruals.
pub open spec fn with_shares(r: AssetFarmReward, shares: u128) -> AssetFarmReward {
    AssetFarmReward { boosted_shares: shares, ..r }
}

/// The reward after each step of `steps` in turn: the boosted shares are set
/// to the step's shares, then the reward accrues over the step's elapsed time.
pub open spec fn accrued_history(r: AssetFarmReward, steps: Seq<(nat, u128)>) -> AssetFarmReward
    decreases steps.len(),
{
    if steps.len() == 0 {
        r
    } else {
        accrued(with_shares(accrued_history(r, steps.drop_last()), steps.last().1), steps.last().0)
    }
}

/// The sum of what the steps of `steps` hand out.
pub open spec fn total_acquired(r: AssetFarmReward, steps: Seq<(nat, u128)>) -> int
    decreases steps.len(),
{
    if steps.len() == 0 {
        0
    } else {
        total_acquired(r, steps.drop_last()) + acquired(
            with_shares(accrued_history(r, steps.drop_last()), steps.last().1),
            steps.last().0,
        )
    }
}

/// Every step of `steps` keeps the accumulator representable.
pub open spec fn fits_history(r: AssetFarmReward, steps: Seq<(nat, u128)>) -> bool {
    forall|i: int|
        0 <= i < steps.len() ==> accrual_fits(
            with_shares(accrued_history(r, steps.take(i)), #[trigger] steps[i].1),
            steps[i].0,
        )
}

/// One step hands out between nothing and what remains, and takes exactly
/// that from the remaining budget.
pub proof fn lemma_step_bounds(r: AssetFarmReward, dt: nat)
    ensures
        0 <= acquired(r, dt) <= r.remaining_rewards,
        accrued(r, dt).remaining_rewards == r.remaining_rewards - acquired(r, dt),
        accrued(r, dt).boosted_shares == r.boosted_shares,
        accrued(r, dt).booster_log_base == r.booster_log_base,
        accrued(r, dt).reward_per_day == r.reward_per_day,
{
    if r.boosted_shares > 0 {
        let p = r.reward_per_day as int * dt;
        assert(p >= 0) by (nonlinear_arith)
            requires
                r.reward_per_day >= 0,
                dt >= 0,
                p == r.reward_per_day as int * dt,
        ;
        lemma_fundamental_div_mod(p, NANOS_PER_DAY as int);
    }
}

/// Conservation: over any sequence of accrual steps, whatever the boosted
/// shares, the amounts handed out add up to what left the remaining budget,
/// so they never exceed the initial budget, and equal it once the budget is
/// exhausted.
pub proof fn lemma_conservation(r: AssetFarmReward, steps: Seq<(nat, u128)>)
    ensures
        total_acquired(r, steps) + accrued_history(r, steps).remaining_rewards == r.remaining_rewards,
        0 <= total_acquired(r, steps) <= r.remaining_rewards,
        accrued_history(r, steps).remaining_rewards == 0 ==> total_acquired(r, steps) == r.remaining_rewards,
    decreases steps.len(),
{
    if steps.len() > 0 {
        lemma_conservation(r, steps.drop_last());
        lemma_step_bounds(with_shares(accrued_history(r, steps.drop_last()), steps.last().1), steps.last().0);
    }
}

/// The accumulator of a wf value is its value in units.
proof fn lemma_from_units(n: int)
    requires
        0 <= n <= max_units(),
    ensures
        RewardPerShare::from_units(n)@ == n,
        RewardPerShare::from_units(n).wf(),
{
    lemma_fundamental_div_mod(n, SCALE as int);
    assert(n / (SCALE as int) <= u128::MAX) by {
        vstd::arithmetic::div_mod::lemma_div_is_ordered(n, max_units(), SCALE as int);
        vstd::arithmetic::div_mod::lemma_fundamental_div_mod_converse(
            max_units(),
            SCALE as int,
            u128::MAX as int,
            SCALE - 1,
        );
    }
}

/// One accrual step never lowers the reward-per-share accumulator.
pub proof fn lemma_step_per_share(r: AssetFarmReward, dt: nat)
    requires
        accrual_fits(r, dt),
    ensures
        accrued(r, dt).reward_per_share.wf(),
        accrued(r, dt).reward_per_share@ >= r.reward_per_share@,
{
    if r.boosted_shares > 0 {
        lemma_step_bounds(r, dt);
        let a = acquired(r, dt);
        let su = share_units(a, r.boosted_shares as int);
        assert(su >= 0) by (nonlinear_arith)
            requires
                a >= 0,
                r.boosted_shares > 0,
                su == (a * SCALE) / (r.boosted_shares as int),
        ;
        lemma_from_units(r.reward_per_share@ + su);
    }
}

/// The reward-per-share accumulator is non-decreasing across any ordered
/// sequence of accrual steps, for any history of boosted shares.
pub proof fn lemma_per_share_monotonic(r: AssetFarmReward, steps: Seq<(nat, u128)>)
    requires
        fits_history(r, steps),
    ensures
        accrued_history(r, steps).reward_per_share@ >= r.reward_per_share@,
    decreases steps.len(),
{
    if steps.len() > 0 {
        let init = steps.drop_last();
        let n = steps.len() - 1;
        assert forall|i: int| 0 <= i < init.len() implies accrual_fits(
            with_shares(accrued_history(r, init.take(i)), #[trigger] init[i].1),
            init[i].0,
        ) by {
            assert(init.take(i) == steps.take(i));
            assert(init[i] == steps[i]);
            assert(accrual_fits(with_shares(accrued_history(r, steps.take(i)), steps[i].1), steps[i].0));
        }
        lemma_per_share_monotonic(r, init);
        assert(steps.take(n) == init);
        assert(accrual_fits(with_shares(accrued_history(r, steps.take(n)), steps[n].1), steps[n].0));
        lemma_step_per_share(with_shares(accrued_history(r, init), steps.last().1), steps.last().0);
    }
}

/// With no boosted shares throughout, a reward's remaining budget and
/// accumulator stay as they are, however much time passes.
pub proof fn lemma_zero_shares_frozen(r: AssetFarmReward, steps: Seq<(nat, u128)>)
    requires
        forall|i: int| 0 <= i < steps.len() ==> #[trigger] steps[i].1 == 0,
    ensures
        accrued_history(r, steps).remaining_rewards == r.remaining_rewards,
        accrued_history(r, steps).reward_per_share == r.reward_per_share,
        total_acquired(r, steps) == 0,
    decreases steps.len(),
{
    if steps.len() > 0 {
        let init = steps.drop_last();
        assert forall|i: int| 0 <= i < init.len() implies #[trigger] init[i].1 == 0 by {
            assert(init[i] == steps[i]);
        }
        assert(steps[steps.len() - 1].1 == 0);
        lemma_zero_shares_frozen(r, init);
    }
}

/// The mathematical content of a farm snapshot.
pub struct FarmState {
    pub block_timestamp: Timestamp,
    pub rewards: Map<Seq<char>, AssetFarmReward>,
    pub inactive_rewards: Map<Seq<char>, VAssetFarmReward>,
}

/// The snapshot `f` advanced to logical time `now`: every active reward
/// accrues over the elapsed time, and each one that retires moves to the
/// inactive rewards.
pub open spec fn farm_after(f: FarmState, now: Timestamp) -> FarmState {
    if now == f.block_timestamp {
        f
    } else {
        let dt = (now - f.block_timestamp) as nat;
        FarmState {
            block_timestamp: now,
            rewards: Map::new(
                |k: Seq<char>| f.rewards.contains_key(k) && !retires(accrued(f.rewards[k], dt)),
                |k: Seq<char>| accrued(f.rewards[k], dt),
            ),
            inactive_rewards: f.inactive_rewards.union_prefer_right(
                Map::new(
                    |k: Seq<char>| f.rewards.contains_key(k) && retires(accrued(f.rewards[k], dt)),
                    |k: Seq<char>| VAssetFarmReward::Current(accrued(f.rewards[k], dt)),
                ),
            ),
        }
    }
}

/// The state of a farm can be advanced to `now` without a time-ordering
/// violation or an accumulator overflow.
pub open spec fn ready_at(f: FarmState, now: Timestamp) -> bool {
    &&& f.block_timestamp <= now
    &&& forall|k: Seq<char>| #[trigger] f.rewards.contains_key(k)
        ==> accrual_fits(f.rewards[k], (now - f.block_timestamp) as nat)
}

/// Advancing a farm twice to the same time is advancing it once.
pub proof fn lemma_update_idempotent(f: FarmState, now: Timestamp)
    ensures
        farm_after(farm_after(f, now), now) == farm_after(f, now),
{
}

/// A reward whose budget runs out in an update leaves the active rewards and
/// is found, as it was accrued, among the inactive ones; no later update
/// brings it back.
pub proof fn lemma_retirement(f: FarmState, now: Timestamp, k: Seq<char>, later: Timestamp)
    requires
        f.rewards.contains_key(k),
        now != f.block_timestamp,
        retires(accrued(f.rewards[k], (now - f.block_timestamp) as nat)),
    ensures
        ({
            let a = accrued(f.rewards[k], (now - f.block_timestamp) as nat);
            &&& !farm_after(f, now).rewards.contains_key(k)
            &&& farm_after(f, now).inactive_rewards.contains_key(k)
            &&& farm_after(f, now).inactive_rewards[k] == VAssetFarmReward::Current(a)
            &&& a.remaining_rewards == 0
            &&& a.boosted_shares == f.rewards[k].boosted_shares
            &&& a.booster_log_base == f.rewards[k].booster_log_base
            &&& !farm_after(farm_after(f, now), later).rewards.contains_key(k)
        }),
{
    lemma_step_bounds(f.rewards[k], (now - f.block_timestamp) as nat);
}

/// Some entry among the first `j` carries key `k`.
pub open spec fn key_in_prefix<V>(s: Seq<(TokenId, V)>, j: int, k: Seq<char>) -> bool {
    exists|b: int| 0 <= b < j && #[trigger] s[b].0@ == k
}

/// The data required to keep track of a farm.
pub struct AssetFarm {
    pub block_timestamp: Timestamp,
    /// Active rewards of the farm.
    pub rewards: TokenMap<AssetFarmReward>,
    /// Rewards whose budget is exhausted.
    pub inactive_rewards: TokenMap<VAssetFarmReward>,
}

impl Clone for AssetFarm {
    /// A deep copy: both reward maps are copied, nothing is shared.
    fn clone(&self) -> (r: Self)
        ensures
            r.block_timestamp == self.block_timestamp,
            r.rewards.entries@ == self.rewards.entries@,
            r.inactive_rewards.entries@ == self.inactive_rewards.entries@,
    {
        AssetFarm {
            block_timestamp: self.block_timestamp,
            rewards: self.rewards.copied(),
            inactive_rewards: self.inactive_rewards.copied(),
        }
    }
}

impl AssetFarm {
    pub open spec fn view(&self) -> FarmState {
        FarmState {
            block_timestamp: self.block_timestamp,
            rewards: self.rewards@,
            inactive_rewards: self.inactive_rewards@,
        }
    }

    pub open spec fn wf(&self) -> bool {
        self.rewards.wf() && self.inactive_rewards.wf()
    }

    /// A farm at `block_timestamp` with no rewards.
    pub fn new(block_timestamp: Timestamp) -> (r: Self)
        ensures
            r.wf(),
            r@ == (FarmState {
                block_timestamp,
                rewards: Map::empty(),
                inactive_rewards: Map::empty(),
            }),
    {
        AssetFarm { block_timestamp, rewards: TokenMap::new(), inactive_rewards: TokenMap::new() }
    }

    /// Advances the farm to logical time `now`.
    pub fn update(&mut self, now: Timestamp)
        requires
            old(self).wf(),
            ready_at(old(self)@, now),
        ensures
            final(self).wf(),
            final(self)@ == farm_after(old(self)@, now),
            now == old(self).block_timestamp ==> *final(self) == *old(self),
    {
        if now == self.block_timestamp {
            return;
        }
        let dt = now - self.block_timestamp;
        self.block_timestamp = now;
        let ghost olds = self.rewards.entries@;
        let ghost om = entries_map(olds);
        let ghost old_inactive = self.inactive_rewards@;
        proof {
            assert forall|k: Seq<char>| #[trigger] om.contains_key(k) implies accrual_fits(om[k], dt as nat) by {
                assert(old(self)@.rewards.contains_key(k));
            }
        }
        let mut active: Vec<(TokenId, AssetFarmReward)> = Vec::new();
        let n = self.rewards.entries.len();
        let mut j: usize = 0;
        while j < n
            invariant
                self.block_timestamp == now,
                dt == now - old(self).block_timestamp,
                old(self).rewards.entries@ == olds,
                old_inactive == old(self).inactive_rewards@,
                self.rewards.entries@ == olds,
                om == entries_map(olds),
                n == olds.len(),
                j <= n,
                keys_unique(olds),
                self.inactive_rewards.wf(),
                forall|k: Seq<char>| #[trigger] om.contains_key(k) ==> accrual_fits(om[k], dt as nat),
                keys_unique(active@),
                forall|a: int| 0 <= a < active@.len() ==> key_in_prefix(olds, j as int, #[trigger] active@[a].0@),
                entries_map(active@) == Map::new(
                    |k: Seq<char>| key_in_prefix(olds, j as int, k) && !retires(accrued(om[k], dt as nat)),
                    |k: Seq<char>| accrued(om[k], dt as nat),
                ),
                self.inactive_rewards@ == old_inactive.union_prefer_right(
                    Map::new(
                        |k: Seq<char>| key_in_prefix(olds, j as int, k) && retires(accrued(om[k], dt as nat)),
                        |k: Seq<char>| VAssetFarmReward::Current(accrued(om[k], dt as nat)),
                    ),
                ),
            decreases n - j,
        {
            let key = self.rewards.entries[j].0.clone();
            let mut reward = self.rewards.entries[j].1;
            let ghost kv = key@;
            proof {
                lemma_entries_map_index(olds, j as int);
                assert(key_in_prefix(olds, j + 1, kv));
                assert forall|k: Seq<char>| key_in_prefix(olds, j + 1, k)
                    <==> (key_in_prefix(olds, j as int, k) || k == kv) by {
                    if key_in_prefix(olds, j + 1, k) && k != kv {
                        let b = choose|b: int| 0 <= b < j + 1 && #[trigger] olds[b].0@ == k;
                        assert(b < j);
                    }
                    if key_in_prefix(olds, j as int, k) {
                        let b = choose|b: int| 0 <= b < j && #[trigger] olds[b].0@ == k;
                        assert(olds[b].0@ == k);
                    }
                }
            }
            reward.accrue(dt);
            let ghost prev_active = active@;
            if reward.boosted_shares > 0 && reward.remaining_rewards == 0 {
                self.inactive_rewards.insert(key, VAssetFarmReward::Current(reward));
                proof {
                    assert(entries_map(active@) =~= Map::new(
                        |k: Seq<char>| key_in_prefix(olds, j + 1, k) && !retires(accrued(om[k], dt as nat)),
                        |k: Seq<char>| accrued(om[k], dt as nat),
                    ));
                    assert(self.inactive_rewards@ =~= old_inactive.union_prefer_right(
                        Map::new(
                            |k: Seq<char>| key_in_prefix(olds, j + 1, k) && retires(accrued(om[k], dt as nat)),
                            |k: Seq<char>| VAssetFarmReward::Current(accrued(om[k], dt as nat)),
                        ),
                    ));
                    assert forall|a: int| 0 <= a < active@.len() implies key_in_prefix(olds, j + 1, #[trigger] active@[a].0@) by {
                        assert(key_in_prefix(olds, j as int, active@[a].0@));
                    }
                }
            } else {
                active.push((key, reward));
                proof {
                    assert(active@.drop_last() == prev_active);
                    assert forall|a: int| 0 <= a < prev_active.len() implies prev_active[a].0@ != kv by {
                        assert(key_in_prefix(olds, j as int, prev_active[a].0@));
                        let b = choose|b: int| 0 <= b < j && #[trigger] olds[b].0@ == prev_active[a].0@;
                        assert(olds[b].0@ != olds[j as int].0@);
                    }
                    assert(keys_unique(active@)) by {
                        assert forall|a: int, b: int|
                            0 <= a < active@.len() && 0 <= b < active@.len() && a != b implies active@[a].0@
                            != active@[b].0@ by {
                            if a < prev_active.len() {
                                assert(active@[a] == prev_active[a]);
                            }
                            if b < prev_active.len() {
                                assert(active@[b] == prev_active[b]);
                            }
                        }
                    }
                    assert forall|a: int| 0 <= a < active@.len() implies key_in_prefix(olds, j + 1, #[trigger] active@[a].0@) by {
                        if a < prev_active.len() {
                            assert(active@[a] == prev_active[a]);
                            assert(key_in_prefix(olds, j as int, prev_active[a].0@));
                        }
                    }
                    assert(entries_map(active@) =~= Map::new(
                        |k: Seq<char>| key_in_prefix(olds, j + 1, k) && !retires(accrued(om[k], dt as nat)),
                        |k: Seq<char>| accrued(om[k], dt as nat),
                    ));
                    assert(self.inactive_rewards@ =~= old_inactive.union_prefer_right(
                        Map::new(
                            |k: Seq<char>| key_in_prefix(olds, j + 1, k) && retires(accrued(om[k], dt as nat)),
                            |k: Seq<char>| VAssetFarmReward::Current(accrued(om[k], dt as nat)),
                        ),
                    ));
                }
            }
            j = j + 1;
        }
        proof {
            assert forall|k: Seq<char>| key_in_prefix(olds, n as int, k) <==> om.contains_key(k) by {
                lemma_entries_map_dom(olds, k);
                if om.contains_key(k) {
                    let b = choose|b: int| 0 <= b < olds.len() && olds[b].0@ == k;
                    assert(olds[b].0@ == k);
                }
            }
        }
        self.rewards = TokenMap { entries: active };
        proof {
            let after = farm_after(old(self)@, now);
            assert(self.rewards@ =~= after.rewards);
            assert(self.inactive_rewards@ =~= after.inactive_rewards);
        }
    }
}

impl AssetFarm {
    /// The inactive reward of token `token_id`, if it has retired.
    pub fn internal_get_inactive_asset_farm_reward(&self, token_id: &TokenId) -> (r: Option<
        AssetFarmReward,
    >)
        requires
            self.wf(),
        ensures
            r == (if self.inactive_rewards@.contains_key(token_id@) {
                Some(self.inactive_rewards@[token_id@].reward())
            } else {
                None
            }),
    {
        match self.inactive_rewards.get(token_id) {
            Some(v) => Some(AssetFarmReward::from(*v)),
            None => None,
        }
    }

    /// Removes the inactive reward of token `token_id` and returns it.
    pub fn internal_remove_inactive_asset_farm_reward(&mut self, token_id: &TokenId) -> (r: Option<
        AssetFarmReward,
    >)
        requires
            old(self).wf(),
        ensures
            final(self).wf(),
            final(self)@ == (FarmState {
                inactive_rewards: old(self)@.inactive_rewards.remove(token_id@),
                ..old(self)@
            }),
            r == (if old(self).inactive_rewards@.contains_key(token_id@) {
                Some(old(self).inactive_rewards@[token_id@].reward())
            } else {
                None
            }),
    {
        match self.inactive_rewards.remove(token_id) {
            Some(v) => Some(AssetFarmReward::from(v)),
            None => None,
        }
    }

    /// Stores `asset_farm_reward` as the inactive reward of token `token_id`.
    pub fn internal_set_inactive_asset_farm_reward(
        &mut self,
        token_id: &TokenId,
        asset_farm_reward: AssetFarmReward,
    )
        requires
            old(self).wf(),
        ensures
            final(self).wf(),
            final(self)@ == (FarmState {
                inactive_rewards: old(self)@.inactive_rewards.insert(
                    token_id@,
                    VAssetFarmReward::Current(asset_farm_reward),
                ),
                ..old(self)@
            }),
    {
        self.inactive_rewards.insert(token_id.clone(), VAssetFarmReward::from(asset_farm_reward));
    }
}

/// The durable envelope of a farm.
pub enum VAssetFarm {
    Current(AssetFarm),
}

impl VAssetFarm {
    pub open spec fn farm(self) -> AssetFarm {
        match self {
            VAssetFarm::Current(c) => c,
        }
    }
}

impl From<VAssetFarm> for AssetFarm {
    fn from(v: VAssetFarm) -> (r: AssetFarm) {
        match v {
            VAssetFarm::Current(c) => c,
        }
    }
}

impl vstd::std_specs::convert::FromSpecImpl<VAssetFarm> for AssetFarm {
    open spec fn obeys_from_spec() -> bool {
        true
    }

    open spec fn from_spec(v: VAssetFarm) -> AssetFarm {
        v.farm()
    }
}

impl From<AssetFarm> for VAssetFarm {
    fn from(c: AssetFarm) -> (r: VAssetFarm) {
        VAssetFarm::Current(c)
    }
}

impl vstd::std_specs::convert::FromSpecImpl<AssetFarm> for VAssetFarm {
    open spec fn obeys_from_spec() -> bool {
        true
    }

    open spec fn from_spec(c: AssetFarm) -> VAssetFarm {
        VAssetFarm::Current(c)
    }
}

} // verus!
