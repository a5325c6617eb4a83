//! The farm registry: durable farm records keyed by farm id, read through an
//! execution-scoped cache that accrues each farm at most once per execution.
use vstd::prelude::*;
use crate::asset_farm::{AssetFarm, FarmState, Timestamp, VAssetFarm, farm_after, ready_at};
use crate::token_map::{TokenId, TokenMap};

verus! {

/// Identifies a farm: the supplied or the borrowed exposure to one asset.
#[derive(Debug, PartialEq, Eq, Hash, PartialOrd, Ord)]
pub enum FarmId {
    Supplied(TokenId),
    Borrowed(TokenId),
}

/// The mathematical content of a farm id.
pub enum FarmKey {
    Supplied(Seq<char>),
    Borrowed(Seq<char>),
}

impl FarmId {
    pub open spec fn view(&self) -> FarmKey {
        match self {
            FarmId::Supplied(t) => FarmKey::Supplied(t@),
            FarmId::Borrowed(t) => FarmKey::Borrowed(t@),
        }
    }
}

impl Clone for FarmId {
    fn clone(&self) -> (r: Self)
        ensures
            r == *self,
    {
        match self {
            FarmId::Supplied(t) => FarmId::Supplied(t.clone()),
            FarmId::Borrowed(t) => FarmId::Borrowed(t.clone()),
        }
    }
}

/// A map keyed by farm id: one token map per kind of exposure.
pub struct FarmMap<V> {
    pub supplied: TokenMap<V>,
    pub borrowed: TokenMap<V>,
}

impl<V> FarmMap<V> {
    pub open spec fn view(&self) -> Map<FarmKey, V> {
        Map::new(
            |k: FarmKey|
                match k {
                    FarmKey::Supplied(t) => self.supplied@.contains_key(t),
                    FarmKey::Borrowed(t) => self.borrowed@.contains_key(t),
                },
            |k: FarmKey|
                match k {
                    FarmKey::Supplied(t) => self.supplied@[t],
                    FarmKey::Borrowed(t) => self.borrowed@[t],
                },
        )
    }

    pub open spec fn wf(&self) -> bool {
        self.supplied.wf() && self.borrowed.wf()
    }

    pub fn new() -> (r: Self)
        ensures
            r.wf(),
            r@ == Map::<FarmKey, V>::empty(),
    {
        let r = FarmMap { supplied: TokenMap::new(), borrowed: TokenMap::new() };
        assert(r@ =~= Map::<FarmKey, V>::empty());
        r
    }

    pub fn get(&self, id: &FarmId) -> (r: Option<&V>)
        requires
            self.wf(),
        ensures
            r matches Some(v) ==> self@.contains_key(id@) && *v == self@[id@],
            r is None <==> !self@.contains_key(id@),
    {
        match id {
            FarmId::Supplied(t) => self.supplied.get(t),
            FarmId::Borrowed(t) => self.borrowed.get(t),
        }
    }

    /// Inserts or overwrites the value at `id`.
    pub fn insert(&mut self, id: &FarmId, v: V)
        requires
            old(self).wf(),
        ensures
            final(self).wf(),
            final(self)@ == old(self)@.insert(id@, v),
    {
        match id {
            FarmId::Supplied(t) => self.supplied.insert(t.clone(), v),
            FarmId::Borrowed(t) => self.borrowed.insert(t.clone(), v),
        }
        assert(self@ =~= old(self)@.insert(id@, v));
    }
}

/// The state of an optional farm.
pub open spec fn opt_state(f: Option<AssetFarm>) -> Option<FarmState> {
    match f {
        Some(a) => Some(a@),
        None => None,
    }
}

pub open spec fn opt_wf(f: Option<AssetFarm>) -> bool {
    match f {
        Some(a) => a.wf(),
        None => true,
    }
}

/// The snapshots that one execution has read or written, by farm id, at the
/// execution's logical time. A `None` entry records a farm id that has no farm.
pub struct FarmCache {
    pub now: Timestamp,
    pub farms: FarmMap<Option<AssetFarm>>,
}

impl FarmCache {
    pub open spec fn view(&self) -> Map<FarmKey, Option<FarmState>> {
        Map::new(|k: FarmKey| self.farms@.contains_key(k), |k: FarmKey| opt_state(self.farms@[k]))
    }

    pub open spec fn wf(&self) -> bool {
        &&& self.farms.wf()
        &&& forall|k: FarmKey| #[trigger] self.farms@.contains_key(k) ==> opt_wf(self.farms@[k])
    }

    /// An empty cache for an execution at logical time `now`.
    pub fn new(now: Timestamp) -> (r: Self)
        ensures
            r.wf(),
            r.now == now,
            r@ == Map::<FarmKey, Option<FarmState>>::empty(),
    {
        let r = FarmCache { now, farms: FarmMap::new() };
        assert(r@ =~= Map::<FarmKey, Option<FarmState>>::empty());
        r
    }
}

/// What a read of farm `k` returns: the cached snapshot if the execution has
/// one, else the stored farm advanced to `now`, else nothing.
pub open spec fn resolve(
    store: Map<FarmKey, FarmState>,
    cache: Map<FarmKey, Option<FarmState>>,
    now: Timestamp,
    k: FarmKey,
) -> Option<FarmState> {
    if cache.contains_key(k) {
        cache[k]
    } else if store.contains_key(k) {
        Some(farm_after(store[k], now))
    } else {
        None
    }
}

/// The cache after a read of farm `k`.
pub open spec fn cache_after_read(
    store: Map<FarmKey, FarmState>,
    cache: Map<FarmKey, Option<FarmState>>,
    now: Timestamp,
    k: FarmKey,
) -> Map<FarmKey, Option<FarmState>> {
    if cache.contains_key(k) {
        cache
    } else {
        cache.insert(k, resolve(store, cache, now, k))
    }
}

/// The pairs (farm id, snapshot) for the ids among `ids` that resolve to a
/// farm under `f`, in the order of `ids`.
pub open spec fn found(ids: Seq<FarmKey>, f: spec_fn(FarmKey) -> Option<FarmState>) -> Seq<
    (FarmKey, FarmState),
>
    decreases ids.len(),
{
    if ids.len() == 0 {
        Seq::empty()
    } else {
        let rest = found(ids.drop_last(), f);
        match f(ids.last()) {
            Some(s) => rest.push((ids.last(), s)),
            None => rest,
        }
    }
}

/// The two farm ids of each asset id, in order.
pub open spec fn farm_keys_of(assets: Seq<Seq<char>>) -> Seq<FarmKey>
    decreases assets.len(),
{
    if assets.len() == 0 {
        Seq::empty()
    } else {
        farm_keys_of(assets.drop_last()).push(FarmKey::Supplied(assets.last())).push(
            FarmKey::Borrowed(assets.last()),
        )
    }
}

/// The asset index window of a page: from `from_index` (default 0), at most
/// `limit` assets (default all of them).
pub open spec fn page_bounds(len: nat, from_index: Option<u64>, limit: Option<u64>) -> (int, int) {
    let start: int = match from_index {
        Some(f) => f as int,
        None => 0,
    };
    let lim: int = match limit {
        Some(l) => l as int,
        None => len as int,
    };
    if start >= len {
        (len as int, len as int)
    } else if start + lim < len {
        (start, start + lim)
    } else {
        (start, len as int)
    }
}

pub open spec fn pairs_view(v: Seq<(FarmId, AssetFarm)>) -> Seq<(FarmKey, FarmState)> {
    v.map_values(|e: (FarmId, AssetFarm)| (e.0@, e.1@))
}

/// The registry's durable state.
pub struct Contract {
    /// Farm records by farm id.
    pub asset_farms: FarmMap<VAssetFarm>,
    /// The ordered index of underlying asset ids.
    pub asset_ids: Vec<TokenId>,
}

impl Contract {
    /// The stored farms, out of their envelopes.
    pub open spec fn farms(&self) -> Map<FarmKey, FarmState> {
        Map::new(|k: FarmKey| self.asset_farms@.contains_key(k), |k: FarmKey| self.asset_farms@[k].farm()@)
    }

    pub open spec fn asset_keys(&self) -> Seq<Seq<char>> {
        self.asset_ids@.map_values(|t: TokenId| t@)
    }

    pub open spec fn wf(&self) -> bool {
        &&& self.asset_farms.wf()
        &&& forall|k: FarmKey| #[trigger] self.asset_farms@.contains_key(k) ==> self.asset_farms@[k].farm().wf()
    }

    pub open spec fn resolve(&self, cache: &FarmCache, k: FarmKey) -> Option<FarmState> {
        resolve(self.farms(), cache@, cache.now, k)
    }

    /// Reading farm `k` through `cache` needs no accrual that could fail.
    pub open spec fn loadable(&self, cache: &FarmCache, k: FarmKey) -> bool {
        !cache@.contains_key(k) && self.farms().contains_key(k) ==> ready_at(self.farms()[k], cache.now)
    }

    /// An empty registry over the given asset index.
    pub fn new(asset_ids: Vec<TokenId>) -> (r: Self)
        ensures
            r.wf(),
            r.farms() == Map::<FarmKey, FarmState>::empty(),
            r.asset_ids@ == asset_ids@,
    {
        let r = Contract { asset_farms: FarmMap::new(), asset_ids };
        assert(r.farms() =~= Map::<FarmKey, FarmState>::empty());
        r
    }
}

pub open spec fn ids_view(ids: Seq<FarmId>) -> Seq<FarmKey> {
    ids.map_values(|id: FarmId| id@)
}

/// Reading a farm through the cache changes what no read returns: a second
/// read of the same farm, with no write between, returns what the first did,
/// and so does a read of any other farm.
pub proof fn lemma_read_keeps_reads(
    store: Map<FarmKey, FarmState>,
    cache: Map<FarmKey, Option<FarmState>>,
    now: Timestamp,
    k: FarmKey,
    k2: FarmKey,
)
    ensures
        resolve(store, cache_after_read(store, cache, now, k), now, k2) == resolve(store, cache, now, k2),
        cache_after_read(store, cache, now, k).contains_key(k),
{
}

/// A read after a write of farm `k`, in the same execution, returns the
/// written snapshot.
pub proof fn lemma_write_then_read(
    store: Map<FarmKey, FarmState>,
    cache: Map<FarmKey, Option<FarmState>>,
    now: Timestamp,
    k: FarmKey,
    written: FarmState,
)
    ensures
        resolve(store.insert(k, written), cache.insert(k, Some(written)), now, k) == Some(written),
{
}

proof fn lemma_farm_keys_append(x: Seq<Seq<char>>, y: Seq<Seq<char>>)
    ensures
        farm_keys_of(x + y) == farm_keys_of(x) + farm_keys_of(y),
    decreases y.len(),
{
    if y.len() > 0 {
        lemma_farm_keys_append(x, y.drop_last());
        assert((x + y).drop_last() == x + y.drop_last());
        assert((x + y).last() == y.last());
        assert(farm_keys_of(x + y) =~= farm_keys_of(x) + farm_keys_of(y));
    }
}

/// Filtering a concatenation of id lists is concatenating the filtered lists.
pub proof fn lemma_found_append(a: Seq<FarmKey>, b: Seq<FarmKey>, f: spec_fn(FarmKey) -> Option<FarmState>)
    ensures
        found(a + b, f) == found(a, f) + found(b, f),
    decreases b.len(),
{
    if b.len() == 0 {
        assert(a + b == a);
        assert(found(a, f) + found(b, f) == found(a, f));
    } else {
        lemma_found_append(a, b.drop_last(), f);
        assert((a + b).drop_last() == a + b.drop_last());
        assert((a + b).last() == b.last());
        match f(b.last()) {
            Some(s) => {
                assert(found(a + b, f) =~= found(a, f) + found(b, f));
            },
            None => {},
        }
    }
}

impl Contract {
    /// Pagination continues without gaps or repeats: the page of `limit`
    /// assets from `from_index`, followed by the page that starts at
    /// `from_index + limit`, covers the same farm ids, in order, as one page
    /// of both limits together; and so do the pairs read for them, as long
    /// as reads resolve alike in the two calls.
    pub proof fn lemma_page_continuation(
        &self,
        from_index: u64,
        limit: u64,
        limit2: u64,
        f: spec_fn(FarmKey) -> Option<FarmState>,
    )
        requires
            from_index + limit + limit2 <= u64::MAX,
        ensures
            self.page_keys(Some(from_index), Some(limit)) + self.page_keys(
                Some((from_index + limit) as u64),
                Some(limit2),
            ) == self.page_keys(Some(from_index), Some((limit + limit2) as u64)),
            found(self.page_keys(Some(from_index), Some(limit)), f) + found(
                self.page_keys(Some((from_index + limit) as u64), Some(limit2)),
                f,
            ) == found(self.page_keys(Some(from_index), Some((limit + limit2) as u64)), f),
    {
        let a = self.asset_keys();
        let len = self.asset_ids@.len();
        let b1 = page_bounds(len, Some(from_index), Some(limit));
        let b2 = page_bounds(len, Some((from_index + limit) as u64), Some(limit2));
        let b = page_bounds(len, Some(from_index), Some((limit + limit2) as u64));
        let x = a.subrange(b1.0, b1.1);
        let y = a.subrange(b2.0, b2.1);
        assert(x + y =~= a.subrange(b.0, b.1));
        lemma_farm_keys_append(x, y);
        lemma_found_append(farm_keys_of(x), farm_keys_of(y), f);
    }
}

/// An independent copy of an optional farm.
fn copy_opt(f: &Option<AssetFarm>) -> (r: Option<AssetFarm>)
    ensures
        opt_state(r) == opt_state(*f),
        opt_wf(r) == opt_wf(*f),
{
    match f {
        Some(a) => Some(a.clone()),
        None => None,
    }
}

impl Contract {
    /// Returns the farm `farm_id` as this execution sees it: a cached
    /// snapshot, or else the stored farm advanced to the cache's time, which
    /// is then cached. Accrual thus runs at most once per farm per execution.
    pub fn internal_get_asset_farm(&self, cache: &mut FarmCache, farm_id: &FarmId) -> (r: Option<
        AssetFarm,
    >)
        requires
            self.wf(),
            old(cache).wf(),
            self.loadable(old(cache), farm_id@),
        ensures
            final(cache).wf(),
            final(cache).now == old(cache).now,
            final(cache)@ == cache_after_read(self.farms(), old(cache)@, old(cache).now, farm_id@),
            opt_state(r) == self.resolve(old(cache), farm_id@),
            opt_wf(r),
    {
        match cache.farms.get(farm_id) {
            Some(c) => {
                return copy_opt(c);
            },
            None => {},
        }
        let loaded = match self.asset_farms.get(farm_id) {
            Some(VAssetFarm::Current(stored)) => {
                let mut farm = stored.clone();
                farm.update(cache.now);
                Some(farm)
            },
            None => None,
        };
        let ghost old_farms = cache.farms@;
        cache.farms.insert(farm_id, copy_opt(&loaded));
        proof {
            assert(cache@ =~= cache_after_read(self.farms(), old(cache)@, old(cache).now, farm_id@));
            assert forall|k: FarmKey| #[trigger] cache.farms@.contains_key(k) implies opt_wf(cache.farms@[k]) by {
                if k != farm_id@ {
                    assert(old_farms.contains_key(k));
                }
            }
        }
        loaded
    }

    /// Like `internal_get_asset_farm`, for a farm that must exist.
    pub fn internal_unwrap_asset_farm(&self, cache: &mut FarmCache, farm_id: &FarmId) -> (r: AssetFarm)
        requires
            self.wf(),
            old(cache).wf(),
            self.loadable(old(cache), farm_id@),
            self.resolve(old(cache), farm_id@) is Some,
        ensures
            final(cache).wf(),
            final(cache).now == old(cache).now,
            final(cache)@ == cache_after_read(self.farms(), old(cache)@, old(cache).now, farm_id@),
            Some(r@) == self.resolve(old(cache), farm_id@),
            r.wf(),
    {
        match self.internal_get_asset_farm(cache, farm_id) {
            Some(farm) => farm,
            None => {
                assert(false);
                AssetFarm::new(0)
            },
        }
    }

    /// Stores `asset_farm` as farm `farm_id`, both durably and in this
    /// execution's cache, so that later reads see exactly this value.
    pub fn internal_set_asset_farm(&mut self, cache: &mut FarmCache, farm_id: &FarmId, asset_farm: AssetFarm)
        requires
            old(self).wf(),
            old(cache).wf(),
            asset_farm.wf(),
        ensures
            final(self).wf(),
            final(self).farms() == old(self).farms().insert(farm_id@, asset_farm@),
            final(self).asset_ids@ == old(self).asset_ids@,
            final(cache).wf(),
            final(cache).now == old(cache).now,
            final(cache)@ == old(cache)@.insert(farm_id@, Some(asset_farm@)),
    {
        let ghost old_farms = cache.farms@;
        let ghost old_store = self.asset_farms@;
        cache.farms.insert(farm_id, Some(asset_farm.clone()));
        self.asset_farms.insert(farm_id, VAssetFarm::from(asset_farm));
        proof {
            assert(cache@ =~= old(cache)@.insert(farm_id@, Some(asset_farm@)));
            assert(self.farms() =~= old(self).farms().insert(farm_id@, asset_farm@));
            assert forall|k: FarmKey| #[trigger] cache.farms@.contains_key(k) implies opt_wf(cache.farms@[k]) by {
                if k != farm_id@ {
                    assert(old_farms.contains_key(k));
                }
            }
            assert forall|k: FarmKey| #[trigger] self.asset_farms@.contains_key(k) implies self.asset_farms@[k].farm().wf() by {
                if k != farm_id@ {
                    assert(old_store.contains_key(k));
                }
            }
        }
    }

    /// Returns the farm `farm_id`, if there is one.
    pub fn get_asset_farm(&self, cache: &mut FarmCache, farm_id: FarmId) -> (r: Option<AssetFarm>)
        requires
            self.wf(),
            old(cache).wf(),
            self.loadable(old(cache), farm_id@),
        ensures
            final(cache).wf(),
            final(cache).now == old(cache).now,
            final(cache)@ == cache_after_read(self.farms(), old(cache)@, old(cache).now, farm_id@),
            opt_state(r) == self.resolve(old(cache), farm_id@),
    {
        self.internal_get_asset_farm(cache, &farm_id)
    }
}

impl Contract {
    /// Returns the pairs (farm id, farm) for the given farm ids that have a
    /// farm, in the given order; ids without a farm are left out.
    pub fn get_asset_farms(&self, cache: &mut FarmCache, farm_ids: Vec<FarmId>) -> (r: Vec<
        (FarmId, AssetFarm),
    >)
        requires
            self.wf(),
            old(cache).wf(),
            forall|i: int| 0 <= i < farm_ids@.len() ==> self.loadable(old(cache), #[trigger] farm_ids@[i]@),
        ensures
            final(cache).wf(),
            final(cache).now == old(cache).now,
            forall|k: FarmKey| #[trigger] old(cache)@.contains_key(k) ==> final(cache)@.contains_key(k),
            forall|k: FarmKey| #[trigger] self.resolve(final(cache), k) == self.resolve(old(cache), k),
            pairs_view(r@) == found(ids_view(farm_ids@), |k: FarmKey| self.resolve(old(cache), k)),
    {
        let ghost ids = ids_view(farm_ids@);
        let ghost f = |k: FarmKey| self.resolve(old(cache), k);
        let mut result: Vec<(FarmId, AssetFarm)> = Vec::new();
        let mut i: usize = 0;
        while i < farm_ids.len()
            invariant
                self.wf(),
                cache.wf(),
                i <= farm_ids@.len(),
                ids == ids_view(farm_ids@),
                f == (|k: FarmKey| self.resolve(old(cache), k)),
                cache.now == old(cache).now,
                forall|j: int| 0 <= j < farm_ids@.len() ==> self.loadable(old(cache), #[trigger] farm_ids@[j]@),
                forall|k: FarmKey| #[trigger] old(cache)@.contains_key(k) ==> cache@.contains_key(k),
                forall|k: FarmKey| #[trigger] self.resolve(cache, k) == self.resolve(old(cache), k),
                pairs_view(result@) == found(ids.take(i as int), f),
            decreases farm_ids@.len() - i,
        {
            let id = farm_ids[i].clone();
            let ghost before = *cache;
            proof {
                assert(self.loadable(old(cache), farm_ids@[i as int]@));
            }
            let got = self.internal_get_asset_farm(cache, &id);
            proof {
                assert forall|k: FarmKey| #[trigger] self.resolve(cache, k) == self.resolve(old(cache), k) by {
                    lemma_read_keeps_reads(self.farms(), before@, before.now, id@, k);
                    assert(self.resolve(&before, k) == self.resolve(old(cache), k));
                }
                assert(ids.take(i + 1).drop_last() == ids.take(i as int));
                assert(ids.take(i + 1).last() == id@);
            }
            let ghost prev = result@;
            match got {
                Some(farm) => {
                    result.push((id, farm));
                    proof {
                        assert(pairs_view(result@) =~= pairs_view(prev).push((ids[i as int], f(ids[i as int])->Some_0)));
                    }
                },
                None => {},
            }
            i = i + 1;
        }
        proof {
            assert(ids.take(i as int) == ids);
        }
        result
    }

    /// The farm ids of the page that starts at asset `from_index` and holds
    /// at most `limit` assets: both farm ids of each asset, in index order.
    pub open spec fn page_keys(&self, from_index: Option<u64>, limit: Option<u64>) -> Seq<FarmKey> {
        let b = page_bounds(self.asset_ids@.len(), from_index, limit);
        farm_keys_of(self.asset_keys().subrange(b.0, b.1))
    }

    /// Returns the pairs (farm id, farm) of the assets from `from_index` up to
    /// `limit` assets. Each asset gives two farm ids, so the result may hold
    /// up to twice `limit` pairs; the next page starts at `from_index + limit`.
    pub fn get_asset_farms_paged(&self, cache: &mut FarmCache, from_index: Option<u64>, limit: Option<u64>) -> (r: Vec<
        (FarmId, AssetFarm),
    >)
        requires
            self.wf(),
            old(cache).wf(),
            forall|i: int|
                0 <= i < self.page_keys(from_index, limit).len() ==> self.loadable(
                    old(cache),
                    #[trigger] self.page_keys(from_index, limit)[i],
                ),
        ensures
            final(cache).wf(),
            final(cache).now == old(cache).now,
            forall|k: FarmKey| #[trigger] old(cache)@.contains_key(k) ==> final(cache)@.contains_key(k),
            forall|k: FarmKey| #[trigger] self.resolve(final(cache), k) == self.resolve(old(cache), k),
            pairs_view(r@) == found(self.page_keys(from_index, limit), |k: FarmKey| self.resolve(old(cache), k)),
    {
        let len = self.asset_ids.len();
        let len64 = len as u64;
        let start64 = match from_index {
            Some(f) => f,
            None => 0,
        };
        let lim64 = match limit {
            Some(l) => l,
            None => len64,
        };
        let start: usize;
        let end: usize;
        if start64 >= len64 {
            start = len;
            end = len;
        } else if lim64 < len64 - start64 {
            start = start64 as usize;
            end = (start64 + lim64) as usize;
        } else {
            start = start64 as usize;
            end = len;
        }
        let ghost assets = self.asset_keys();
        proof {
            let b = page_bounds(self.asset_ids@.len(), from_index, limit);
            assert(b.0 == start && b.1 == end);
        }
        let mut farm_ids: Vec<FarmId> = Vec::new();
        let mut i: usize = start;
        while i < end
            invariant
                start <= i <= end,
                end <= self.asset_ids@.len(),
                assets == self.asset_keys(),
                ids_view(farm_ids@) == farm_keys_of(assets.subrange(start as int, i as int)),
            decreases end - i,
        {
            let ghost prev = farm_ids@;
            farm_ids.push(FarmId::Supplied(self.asset_ids[i].clone()));
            farm_ids.push(FarmId::Borrowed(self.asset_ids[i].clone()));
            proof {
                let sub = assets.subrange(start as int, i + 1);
                assert(sub.drop_last() == assets.subrange(start as int, i as int));
                assert(sub.last() == self.asset_ids@[i as int]@);
                assert(ids_view(farm_ids@) =~= ids_view(prev).push(FarmKey::Supplied(sub.last())).push(
                    FarmKey::Borrowed(sub.last()),
                ));
            }
            i = i + 1;
        }
        proof {
            assert(assets.subrange(start as int, end as int) == assets.subrange(
                page_bounds(self.asset_ids@.len(), from_index, limit).0,
                page_bounds(self.asset_ids@.len(), from_index, limit).1,
            ));
            assert forall|j: int| 0 <= j < farm_ids@.len() implies self.loadable(old(cache), #[trigger] farm_ids@[j]@) by {
                assert(ids_view(farm_ids@)[j] == farm_ids@[j]@);
                assert(self.page_keys(from_index, limit)[j] == farm_ids@[j]@);
            }
        }
        self.get_asset_farms(cache, farm_ids)
    }
}

} // verus!
