//! Cache facade: hashing of keys, the striped metrics counters, and the
//! orchestration of set, get, del, clear and TTL cleanup over the policy,
//! the store and the lossy ring.

use vstd::prelude::*;
use crate::policy::{DefaultPolicy, lfu_contains, lfu_idx, lemma_sum_nonneg, nonneg_costs};
use crate::ring::RingBuffer;
use crate::policy::{tl_push, tl_reset};
use crate::store::{Node, Store};

verus! {

/// Number of shards of the store.
pub const NUM_SHARDS: usize = 256;

pub const HIT: usize = 0;

pub const MISS: usize = 1;

pub const KEY_ADD: usize = 2;

pub const KEY_UPDATE: usize = 3;

pub const KEY_EVICT: usize = 4;

pub const COST_ADD: usize = 5;

pub const COST_EVICT: usize = 6;

pub const DROP_SETS: usize = 7;

pub const REJECT_SETS: usize = 8;

pub const DROP_GETS: usize = 9;

pub const KEEP_GETS: usize = 10;

/// One past the last metric kind: the number of counter rows.
pub const DO_NOT_USE: usize = 11;

/// Stripes per metric row.
pub const METRIC_SLOTS: usize = 256;

/// How an item travels through the set/del pipeline.
pub enum ItemFlag {
    ItemNew,
    ItemDelete,
    ItemUpdate,
}

/// One pipeline item: the hashed key pair, the value (absent for deletes),
/// its cost, and an optional absolute expiry in milliseconds.
pub struct Item<V> {
    pub flag: ItemFlag,
    pub key: u64,
    pub conflict: u64,
    pub value: Option<V>,
    pub cost: i64,
    pub expiration: Option<u64>,
}

/// Construction-time options of a cache.
pub struct Config {
    /// Number of frequency counters to keep; a good value is ten times the
    /// expected number of resident items.
    pub numb_counters: i64,
    /// Aggregate cost budget of the cache.
    pub max_cost: i64,
    /// Capacity of one ring stripe of buffered read events.
    pub buffer_items: usize,
    /// Whether to keep metrics counters.
    pub metrics: bool,
}

impl Default for Config {
    /// Ten million counters, a budget of 2^30, stripes of 64, no metrics.
    fn default() -> (c: Config)
        ensures
            c.numb_counters == 10_000_000,
            c.max_cost == 0x4000_0000,
            c.buffer_items == 64,
            c.metrics == false,
    {
        Config { numb_counters: 10_000_000, max_cost: 0x4000_0000, buffer_items: 64, metrics: false }
    }
}

/// Addition of two counters, wrapping around 64 bits.
pub open spec fn wadd(x: u64, y: u64) -> u64 {
    if x + y > u64::MAX {
        (x + y - 0x1_0000_0000_0000_0000) as u64
    } else {
        (x + y) as u64
    }
}

/// Sum of a counter row, wrapping around 64 bits.
pub open spec fn wrap_sum(s: Seq<u64>) -> u64
    decreases s.len(),
{
    if s.len() == 0 {
        0u64
    } else {
        wadd(wrap_sum(s.drop_last()), s.last())
    }
}

/// The counter state after one tick of `delta` on metric `t` for `hash`.
pub open spec fn bumped(m: Seq<Seq<u64>>, t: int, hash: u64, delta: u64) -> Seq<Seq<u64>> {
    m.update(t, m[t].update(Metrics::slot_of(hash), wadd(m[t][Metrics::slot_of(hash)], delta)))
}

/// Striped event counters: one row of `METRIC_SLOTS` slots per metric kind;
/// writes go to a slot picked from the key hash, reads sum the row.
pub struct Metrics {
    all: Vec<Vec<u64>>,
}

impl View for Metrics {
    type V = Seq<Seq<u64>>;

    closed spec fn view(&self) -> Seq<Seq<u64>> {
        Seq::new(self.all@.len(), |t: int| self.all@[t]@)
    }
}

impl Metrics {
    pub open spec fn wf(&self) -> bool {
        &&& self@.len() == DO_NOT_USE
        &&& forall|t: int| 0 <= t < DO_NOT_USE ==> (#[trigger] self@[t]).len() == METRIC_SLOTS
    }

    /// The slot a hash writes to.
    pub open spec fn slot_of(hash: u64) -> int {
        (hash % 5) * 10
    }

    /// Builds `n` zeroed rows.
    pub fn new(n: usize) -> (m: Metrics)
        ensures
            m@.len() == n,
            forall|t: int, j: int|
                0 <= t < n && 0 <= j < m@[t].len() ==> (#[trigger] m@[t][j]) == 0u64,
            forall|t: int| 0 <= t < n ==> (#[trigger] m@[t]).len() == METRIC_SLOTS,
            n == DO_NOT_USE ==> m.wf(),
    {
        let mut all: Vec<Vec<u64>> = Vec::new();
        let mut t: usize = 0;
        while t < n
            invariant
                all@.len() == t,
                t <= n,
                forall|t2: int| 0 <= t2 < t ==> (#[trigger] all@[t2])@.len() == METRIC_SLOTS,
                forall|t2: int, j: int|
                    0 <= t2 < t && 0 <= j < METRIC_SLOTS ==> (#[trigger] all@[t2]@[j]) == 0u64,
            decreases n - t,
        {
            let mut row: Vec<u64> = Vec::new();
            let mut j: usize = 0;
            while j < METRIC_SLOTS
                invariant
                    row@.len() == j,
                    j <= METRIC_SLOTS,
                    forall|k: int| 0 <= k < j ==> row@[k] == 0u64,
                decreases METRIC_SLOTS - j,
            {
                row.push(0u64);
                j = j + 1;
            }
            all.push(row);
            t = t + 1;
        }
        Metrics { all }
    }

    /// Adds `delta` (wrapping) to the slot of `hash` in row `t`.
    pub fn add(&mut self, t: usize, hash: u64, delta: u64)
        requires
            old(self).wf(),
            t < DO_NOT_USE,
        ensures
            final(self).wf(),
            final(self)@ == bumped(old(self)@, t as int, hash, delta),
    {
        let slot: usize = ((hash % 5) as usize) * 10;
        proof {
            assert(self@[t as int].len() == METRIC_SLOTS);
            assert(self@[t as int] == self.all@[t as int]@);
            assert(0 <= Metrics::slot_of(hash) < METRIC_SLOTS);
        }
        let mut row2: Vec<u64> = Vec::new();
        self.all.set_and_swap(t, &mut row2);
        let v = row2[slot];
        row2.set(slot, v.wrapping_add(delta));
        self.all.set_and_swap(t, &mut row2);
        proof {
            let s0 = old(self)@;
            let slot_i = Metrics::slot_of(hash);
            let wrapped = wadd(s0[t as int][slot_i], delta);
            let tgt = s0.update(t as int, s0[t as int].update(slot_i, wrapped));
            assert(self.all@[t as int]@ =~= s0[t as int].update(slot_i, wrapped));
            assert forall|t2: int| 0 <= t2 < self@.len() implies self@[t2] =~= tgt[t2] by {
                if t2 != t as int {
                    assert(self.all@[t2] == old(self).all@[t2]);
                }
            }
            assert(self@ =~~= tgt);
        }
    }

    /// The summed value of metric `t`, wrapping around 64 bits.
    pub fn get(&self, t: usize) -> (r: u64)
        requires
            self.wf(),
            t < DO_NOT_USE,
        ensures
            r == wrap_sum(self@[t as int]),
    {
        let row = &self.all[t];
        let n = row.len();
        let mut total: u64 = 0;
        let mut j: usize = 0;
        while j < n
            invariant
                j <= n,
                n == row@.len(),
                total == wrap_sum(row@.take(j as int)),
            decreases n - j,
        {
            proof {
                assert(row@.take(j as int + 1).drop_last() =~= row@.take(j as int));
            }
            total = total.wrapping_add(row[j]);
            j = j + 1;
        }
        proof {
            assert(row@.take(n as int) =~= row@);
        }
        total
    }

    /// Zeroes every slot of every row.
    pub fn clear(&mut self)
        requires
            old(self).wf(),
        ensures
            final(self).wf(),
            forall|t: int, j: int|
                0 <= t < DO_NOT_USE && 0 <= j < METRIC_SLOTS
                    ==> (#[trigger] final(self)@[t][j]) == 0u64,
    {
        let fresh = Metrics::new(DO_NOT_USE);
        self.all = fresh.all;
    }
}

/// An epoch token handed to callers; the sequential core needs nothing from
/// it, so it carries nothing.
pub struct Guard;

/// Relies on std::time::SystemTime::now: the current time in milliseconds
/// since the UNIX epoch; nothing is promised of the value.
#[verifier::external_body]
fn now_millis() -> u64 {
    match std::time::SystemTime::now().duration_since(std::time::UNIX_EPOCH) {
        Ok(d) => d.as_millis() as u64,
        Err(_) => 0,
    }
}

/// The cache: a sharded store of values keyed by 64-bit key hashes, an
/// admission/eviction policy bounding the total cost, and a lossy ring that
/// batches read events into the policy's estimator.
pub struct Cache<V> {
    pub store: Store<V>,
    pub policy: DefaultPolicy,
    pub get_buf: RingBuffer,
    pub numb_counters: i64,
    pub buffer_items: usize,
    pub max_cost: i64,
}

impl<V> Cache<V> {
    pub open spec fn wf(&self) -> bool {
        &&& self.store.wf()
        &&& self.policy.wf()
        &&& self.get_buf.wf()
        &&& self.policy.evict.max_cost == self.max_cost
        &&& 0 <= self.max_cost
    }

    /// A cache with the default configuration.
    pub fn new() -> (c: Cache<V>)
        ensures
            c.wf(),
            forall|k: u64| !c.store.has_key(k),
            forall|k: u64| !c.policy.evict.has_key(k),
            c.policy.evict.used == 0,
            c.max_cost == 0x4000_0000,
    {
        Cache::with_config(Config::default())
    }

    /// A cache built from explicit options.
    pub fn with_config(c: Config) -> (ca: Cache<V>)
        requires
            2 <= c.numb_counters <= 0x1999_9999,
            0 <= c.max_cost,
            1 <= c.buffer_items,
        ensures
            ca.wf(),
            forall|k: u64| !ca.store.has_key(k),
            forall|k: u64| !ca.policy.evict.has_key(k),
            ca.policy.evict.used == 0,
            ca.max_cost == c.max_cost,
    {
        let metrics = if c.metrics {
            Some(Metrics::new(DO_NOT_USE))
        } else {
            None
        };
        Cache {
            store: Store::new(),
            policy: DefaultPolicy::new(c.numb_counters, c.max_cost, metrics),
            get_buf: RingBuffer::new(c.buffer_items),
            numb_counters: c.numb_counters,
            buffer_items: c.buffer_items,
            max_cost: c.max_cost,
        }
    }

    /// An epoch guard for this cache.
    pub fn guard(&self) -> Guard {
        Guard {  }
    }

    /// The key pair of an integer key: the key itself, with no conflict
    /// check.
    pub fn hash(&self, key: &u64) -> (r: (u64, u64))
        ensures
            r.0 == *key,
            r.1 == 0,
    {
        (*key, 0)
    }

    /// Looks a key up: the read is buffered into the ring (draining a full
    /// stripe into the estimator), then answered from the store with its
    /// lazy expiry check against the clock.
    pub fn get(&mut self, key: &u64, _guard: &Guard) -> (r: Option<&V>)
        requires
            old(self).wf(),
        ensures
            final(self).wf(),
            final(self).store == old(self).store,
            final(self).max_cost == old(self).max_cost,
            r matches Some(v) ==> old(self).store.has_key(*key) && *v == old(self).store.node_of(
                *key,
            ).value,
            !old(self).store.has_key(*key) ==> r is None,
            old(self).store.has_key(*key) && old(self).store.node_of(*key).expiration is None ==> (
            r matches Some(v) && *v == old(self).store.node_of(*key).value),
            final(self).policy.evict == old(self).policy.evict,
            final(self).policy.track_metrics == old(self).policy.track_metrics,
            final(self).get_buf.pool.capa == old(self).get_buf.pool.capa,
            // the read is buffered into the stripe; a filled stripe drains
            // its whole batch into the estimator and starts over
            old(self).get_buf.pool.data@.len() + 1 < old(self).get_buf.pool.capa ==> final(self).get_buf.pool.data@ == old(self).get_buf.pool.data@.push(*key) && final(self).policy.admitter@ == old(self).policy.admitter@,
            old(self).get_buf.pool.data@.len() + 1 == old(self).get_buf.pool.capa ==> final(self).get_buf.pool.data@.len() == 0 && final(self).policy.admitter@ == tl_push(
                old(self).policy.admitter@,
                old(self).get_buf.pool.data@.push(*key),
            ),
            // the read ticks the hit counter exactly when a value came back,
            // the miss counter otherwise, on top of a drain's kept-batch tick
            final(self).policy.metrics@ == ({
                let m1 = if old(self).get_buf.pool.data@.len() + 1 == old(self).get_buf.pool.capa
                    && old(self).policy.track_metrics {
                    bumped(
                        old(self).policy.metrics@,
                        KEEP_GETS as int,
                        old(self).get_buf.pool.data@.push(*key)[0],
                        (old(self).get_buf.pool.data@.len() + 1) as u64,
                    )
                } else {
                    old(self).policy.metrics@
                };
                if old(self).policy.track_metrics {
                    if r is Some {
                        bumped(m1, HIT as int, *key, 1)
                    } else {
                        bumped(m1, MISS as int, *key, 1)
                    }
                } else {
                    m1
                }
            }),
    {
        let kh = *key;
        let conflict: u64 = 0;
        match self.get_buf.push(kh) {
            Some(batch) => {
                let _kept = self.policy.push(batch);
            },
            None => {},
        }
        let now = now_millis();
        let is_hit = self.store.get(kh, conflict, now).is_some();
        if self.policy.track_metrics {
            if is_hit {
                self.policy.metrics.add(HIT, kh, 1);
            } else {
                self.policy.metrics.add(MISS, kh, 1);
            }
        }
        self.store.get(kh, conflict, now)
    }

    /// Stores a value under a key at the given cost; shorthand for a set
    /// with no time to live.
    pub fn set(&mut self, key: u64, value: V, cost: i64, guard: &Guard) -> (r: bool)
        requires
            old(self).wf(),
            0 <= cost,
            old(self).policy.evict.used + cost <= i64::MAX,
        ensures
            final(self).wf(),
            final(self).max_cost == old(self).max_cost,
            old(self).store.has_key(key) ==> r && final(self).store.has_key(key) && final(self).store.node_of(key).value == value,
            !old(self).store.has_key(key) && !old(self).policy.evict.has_key(key) && old(self).policy.evict.used + cost <= old(self).max_cost ==> r && final(self).store.has_key(
                key,
            ) && final(self).store.node_of(key).value == value && final(self).store.node_of(
                key,
            ).expiration is None,
            !old(self).policy.evict.has_key(key) && old(self).policy.evict.used <= old(self).max_cost ==> final(self).policy.evict.used <= old(self).max_cost,
            // no entry ever appears or changes under another key, and the
            // two non-evicting paths leave every other key fully untouched
            forall|k2: u64|
                k2 != key ==> ((#[trigger] final(self).store.has_key(k2)) ==> old(self).store.has_key(k2) && final(self).store.node_of(k2) == old(self).store.node_of(k2)),
            old(self).store.has_key(key) || (!old(self).policy.evict.has_key(key) && old(self).policy.evict.used + cost <= old(self).max_cost) ==> (forall|k2: u64|
                k2 != key ==> (#[trigger] final(self).store.has_key(k2)) == old(self).store.has_key(k2)) && (forall|k2: u64|
                k2 != key ==> ((#[trigger] final(self).policy.evict.has_key(k2)) == old(self).policy.evict.has_key(k2) && (old(self).policy.evict.has_key(k2) ==> final(self).policy.evict.cost_of(k2) == old(self).policy.evict.cost_of(k2)))),
            // a resident tracked key is re-costed in place
            old(self).store.has_key(key) && old(self).policy.evict.has_key(key) ==> final(self).policy.evict.cost_of(key) == cost && final(self).policy.evict.used == old(self).policy.evict.used - old(self).policy.evict.cost_of(key) + cost,
            final(self).policy.admitter@ == old(self).policy.admitter@,
            final(self).get_buf == old(self).get_buf,
    {
        self.set_with_ttl(key, value, cost, 0, guard)
    }

    /// Stores a value under a key at the given cost, expiring `ttl_ms`
    /// milliseconds from now. A zero time to live never expires; a negative
    /// one drops the write. A key already resident is updated in place and
    /// re-costed; a fresh key must earn admission from the policy, which may
    /// evict sampled victims or reject the write.
    pub fn set_with_ttl(&mut self, key: u64, value: V, cost: i64, ttl_ms: i64, _guard: &Guard) -> (r:
        bool)
        requires
            old(self).wf(),
            0 <= cost,
            old(self).policy.evict.used + cost <= i64::MAX,
        ensures
            final(self).wf(),
            final(self).max_cost == old(self).max_cost,
            ttl_ms < 0 ==> r == false && final(self).store == old(self).store && final(self).policy.evict == old(self).policy.evict,
            ttl_ms >= 0 && old(self).store.has_key(key) ==> r && final(self).store.has_key(key)
                && final(self).store.node_of(key).value == value,
            ttl_ms == 0 && old(self).store.has_key(key) ==> final(self).store.node_of(
                key,
            ).expiration is None,
            ttl_ms >= 0 && !old(self).store.has_key(key) ==> (r <==> final(self).store.has_key(
                key,
            )),
            ttl_ms == 0 && !old(self).store.has_key(key) && !old(self).policy.evict.has_key(key)
                && old(self).policy.evict.used + cost <= old(self).max_cost ==> r && final(self).store.has_key(key) && final(self).store.node_of(key).value == value && final(self).store.node_of(key).expiration is None && final(self).store.node_of(key).conflict
                == 0,
            ttl_ms >= 0 && !old(self).store.has_key(key) && !old(self).policy.evict.has_key(key)
                && old(self).policy.evict.used <= old(self).max_cost ==> final(self).policy.evict.used <= old(self).max_cost,
            ttl_ms >= 0 && old(self).store.has_key(key) && !old(self).policy.evict.has_key(key)
                ==> final(self).policy.evict.used == old(self).policy.evict.used,
            // the ring is not involved in writes, and the estimator is read
            // at most
            final(self).get_buf == old(self).get_buf,
            final(self).policy.admitter@ == old(self).policy.admitter@,
            final(self).policy.track_metrics == old(self).policy.track_metrics,
            // no entry ever appears or changes under another key
            forall|k2: u64|
                k2 != key ==> ((#[trigger] final(self).store.has_key(k2)) ==> old(self).store.has_key(k2) && final(self).store.node_of(k2) == old(self).store.node_of(k2)),
            // updating a resident key evicts nothing: every other entry and
            // every other tracked cost stays
            ttl_ms >= 0 && old(self).store.has_key(key) ==> (forall|k2: u64|
                k2 != key ==> (#[trigger] final(self).store.has_key(k2)) == old(self).store.has_key(k2)) && (forall|k2: u64|
                k2 != key ==> ((#[trigger] final(self).policy.evict.has_key(k2)) == old(self).policy.evict.has_key(k2) && (old(self).policy.evict.has_key(k2) ==> final(self).policy.evict.cost_of(k2) == old(self).policy.evict.cost_of(k2)))),
            // so does admitting a fresh key into remaining room
            ttl_ms >= 0 && !old(self).store.has_key(key) && !old(self).policy.evict.has_key(key)
                && old(self).policy.evict.used + cost <= old(self).max_cost ==> (forall|k2: u64|
                k2 != key ==> (#[trigger] final(self).store.has_key(k2)) == old(self).store.has_key(k2)) && (forall|k2: u64|
                k2 != key ==> ((#[trigger] final(self).policy.evict.has_key(k2)) == old(self).policy.evict.has_key(k2) && (old(self).policy.evict.has_key(k2) ==> final(self).policy.evict.cost_of(k2) == old(self).policy.evict.cost_of(k2)))),
            // whenever a fresh key is admitted, the stored entry is pinned
            ttl_ms >= 0 && !old(self).store.has_key(key) && r ==> final(self).store.node_of(
                key,
            ).key == key && final(self).store.node_of(key).conflict == 0 && final(self).store.node_of(key).value == value && (ttl_ms == 0 ==> final(self).store.node_of(
                key,
            ).expiration is None) && (ttl_ms > 0 ==> final(self).store.node_of(
                key,
            ).expiration is Some),
            // a resident tracked key is re-costed
            ttl_ms >= 0 && old(self).store.has_key(key) && old(self).policy.evict.has_key(key)
                ==> final(self).policy.evict.has_key(key) && final(self).policy.evict.cost_of(key)
                == cost && final(self).policy.evict.used == old(self).policy.evict.used - old(self).policy.evict.cost_of(key) + cost,
            // counter effects of the two non-evicting paths
            ttl_ms >= 0 && old(self).store.has_key(key) ==> final(self).policy.metrics@ == if old(self).policy.track_metrics && old(self).policy.evict.has_key(key) {
                bumped(old(self).policy.metrics@, KEY_UPDATE as int, key, 1)
            } else {
                old(self).policy.metrics@
            },
            ttl_ms >= 0 && !old(self).store.has_key(key) && !old(self).policy.evict.has_key(key)
                && old(self).policy.evict.used + cost <= old(self).max_cost ==> final(self).policy.metrics@ == if old(self).policy.track_metrics {
                bumped(old(self).policy.metrics@, KEY_ADD as int, key, 1)
            } else {
                old(self).policy.metrics@
            },
    {
        proof {
            lemma_sum_nonneg(old(self).policy.evict.key_costs@);
        }
        if ttl_ms < 0 {
            return false;
        }
        let expiration: Option<u64> = if ttl_ms == 0 {
            None
        } else {
            let now = now_millis();
            let t = ttl_ms as u64;
            if now > u64::MAX - t {
                Some(u64::MAX)
            } else {
                Some(now + t)
            }
        };
        let item = Node::new(key, 0, value, expiration);
        match self.store.update(item) {
            Ok(()) => {
                self.policy.update(key, cost);
                true
            },
            Err(node) => {
                let ghost gnode = node;
                let (victims, added) = self.policy.add(key, cost);
                if added {
                    self.store.set(node);
                    if self.policy.track_metrics {
                        self.policy.metrics.add(KEY_ADD, key, 1);
                    }
                }
                let ghost plain_path = !old(self).store.has_key(key) && !old(
                    self,
                ).policy.evict.has_key(key) && old(self).policy.evict.used + cost <= old(
                    self,
                ).max_cost;
                proof {
                    assert forall|j: int| 0 <= j < victims@.len() implies (
                    #[trigger] victims@[j]).cost >= 0 by {
                        let k2 = victims@[j].key;
                        let s0 = old(self).policy.evict.key_costs@;
                        assert(s0[lfu_idx(s0, k2)].cost >= 0);
                    }
                    assert(nonneg_costs(victims@));
                    lemma_sum_nonneg(victims@);
                }
                let n = victims.len();
                let mut i: usize = 0;
                while i < n
                    invariant
                        self.store.wf(),
                        self.policy.wf(),
                        self.get_buf.wf(),
                        self.policy.evict.max_cost == self.max_cost,
                        self.max_cost == old(self).max_cost,
                        0 <= self.max_cost,
                        i <= n,
                        n == victims@.len(),
                        gnode.key == key && gnode.conflict == 0,
                        forall|j: int| 0 <= j < victims@.len() ==> (#[trigger] victims@[j]).key != key,
                        added ==> self.store.has_key(key) && self.store.node_of(key) == gnode,
                        !added && !old(self).store.has_key(key) ==> !self.store.has_key(key),
                        (!old(self).policy.evict.has_key(key) && old(self).policy.evict.used
                            <= self.max_cost) ==> self.policy.evict.used <= self.max_cost,
                        self.get_buf == old(self).get_buf,
                        self.policy.admitter@ == old(self).policy.admitter@,
                        self.policy.track_metrics == old(self).policy.track_metrics,
                        forall|k2: u64|
                            k2 != key ==> ((#[trigger] self.store.has_key(k2))
                                ==> old(self).store.has_key(k2) && self.store.node_of(k2) == old(
                                self,
                            ).store.node_of(k2)),
                        forall|k2: u64|
                            k2 != key && !lfu_contains(victims@, k2) ==> ((
                            #[trigger] self.store.has_key(k2)) == old(self).store.has_key(k2)),
                        forall|k2: u64|
                            k2 != key && !lfu_contains(victims@, k2) ==> ((
                            #[trigger] self.policy.evict.has_key(k2)) == old(
                                self,
                            ).policy.evict.has_key(k2) && (old(self).policy.evict.has_key(k2)
                                ==> self.policy.evict.cost_of(k2) == old(self).policy.evict.cost_of(
                                k2,
                            ))),
                        !old(self).policy.evict.has_key(key) && cost <= old(self).max_cost ==> (
                        self.policy.evict.has_key(key) == added),
                        !old(self).policy.evict.has_key(key) && cost <= old(self).max_cost && added
                            ==> self.policy.evict.cost_of(key) == cost,
                        plain_path ==> victims@.len() == 0,
                        plain_path ==> self.policy.metrics@ == if self.policy.track_metrics {
                            bumped(old(self).policy.metrics@, KEY_ADD as int, key, 1)
                        } else {
                            old(self).policy.metrics@
                        },
                    decreases n - i,
                {
                    let vk = victims[i].key;
                    let zero: u64 = 0;
                    match self.store.del(&vk, &zero) {
                        Some((_c2, _v2)) => {
                            if self.policy.track_metrics {
                                self.policy.metrics.add(KEY_EVICT, vk, 1);
                                if victims[i].cost >= 0 {
                                    self.policy.metrics.add(COST_EVICT, vk, victims[i].cost as u64);
                                }
                            }
                        },
                        None => {},
                    }
                    i = i + 1;
                }
                added
            },
        }
    }

    /// Deletes the entry of a key from the store and the policy.
    pub fn del(&mut self, key: &u64, _guard: &Guard)
        requires
            old(self).wf(),
        ensures
            final(self).wf(),
            final(self).max_cost == old(self).max_cost,
            !final(self).store.has_key(*key),
            !final(self).policy.evict.has_key(*key),
            forall|k2: u64|
                k2 != *key ==> (final(self).store.has_key(k2) == old(self).store.has_key(k2) && (
                old(self).store.has_key(k2) ==> final(self).store.node_of(k2) == old(self).store.node_of(k2))),
    {
        self.policy.del(key);
        let zero: u64 = 0;
        let _ = self.store.del(key, &zero);
    }

    /// Empties the store, zeroes the policy and the metrics.
    pub fn clear(&mut self, _guard: &Guard)
        requires
            old(self).wf(),
        ensures
            final(self).wf(),
            final(self).max_cost == old(self).max_cost,
            forall|k: u64| !final(self).store.has_key(k),
            forall|k: u64| !final(self).policy.evict.has_key(k),
            final(self).policy.evict.used == 0,
            final(self).policy.admitter@ == tl_reset(old(self).policy.admitter@),
            final(self).policy.track_metrics == old(self).policy.track_metrics,
            forall|t: int, j: int|
                0 <= t < DO_NOT_USE && 0 <= j < METRIC_SLOTS ==> (
                #[trigger] final(self).policy.metrics@[t][j]) == 0u64,
            forall|b: u64, k: u64| !final(self).store.em.has_pair(b, k),
            final(self).get_buf == old(self).get_buf,
    {
        self.policy.clear();
        self.policy.metrics.clear();
        self.store.clear();
    }

    /// Drains the past expiration buckets and evicts what they recorded.
    pub fn clean_up(&mut self, _guard: &Guard)
        requires
            old(self).wf(),
        ensures
            final(self).wf(),
            final(self).max_cost == old(self).max_cost,
            forall|k: u64|
                final(self).store.has_key(k) ==> old(self).store.has_key(k) && final(self).store.node_of(k) == old(self).store.node_of(k),
            final(self).policy.admitter@ == old(self).policy.admitter@,
            final(self).policy.evict.max_cost == old(self).policy.evict.max_cost,
            final(self).policy.evict.used <= old(self).policy.evict.used,
            final(self).get_buf == old(self).get_buf,
    {
        let now = now_millis();
        self.store.clean_up(&mut self.policy, now);
    }

    /// Round trip: once a value sits under a fresh key with no expiry and a
    /// zero conflict hash, a lookup of that key answers it at every clock
    /// value; with `set_with_ttl`'s guarantee on a sufficiently empty cache
    /// this pins `set(k, v, c)` followed by `get(k)` to `Some(v)`.
    pub proof fn lemma_round_trip(c: Cache<V>, key: u64, value: V)
        requires
            c.wf(),
            c.store.has_key(key),
            c.store.node_of(key).value == value,
            c.store.node_of(key).expiration is None,
        ensures
            forall|now: u64| c.store.get_spec(key, 0, now) == Some(value),
    {
    }

    /// Runs one pipeline item: a new entry goes through policy admission
    /// and, if admitted, lands in the store while its victims leave; an
    /// update re-costs its key; a delete drops the key everywhere.
    pub fn process_items(&mut self, item: Item<V>) -> (r: bool)
        requires
            old(self).wf(),
            0 <= item.cost,
            old(self).policy.evict.used + item.cost <= i64::MAX,
        ensures
            final(self).wf(),
            final(self).max_cost == old(self).max_cost,
            final(self).get_buf == old(self).get_buf,
            final(self).policy.admitter@ == old(self).policy.admitter@,
            // a delete clears the key from the policy, and from the store
            // whenever the conflict hash permits it; nothing else moves
            item.flag is ItemDelete ==> r && !final(self).policy.evict.has_key(item.key) && ((
            item.conflict == 0 || !old(self).store.has_key(item.key) || old(self).store.node_of(
                item.key,
            ).conflict == item.conflict) ==> !final(self).store.has_key(item.key)) && (forall|
                k2: u64,
            |
                k2 != item.key ==> ((#[trigger] final(self).store.has_key(k2)) == old(self).store.has_key(k2) && (old(self).store.has_key(k2) ==> final(self).store.node_of(k2)
                    == old(self).store.node_of(k2)))) && (forall|k2: u64|
                k2 != item.key ==> ((#[trigger] final(self).policy.evict.has_key(k2)) == old(self).policy.evict.has_key(k2) && (old(self).policy.evict.has_key(k2) ==> final(self).policy.evict.cost_of(k2) == old(self).policy.evict.cost_of(k2)))),
            // an update re-costs a tracked key and leaves the store alone
            item.flag is ItemUpdate ==> r && final(self).store == old(self).store && (old(self).policy.evict.has_key(item.key) ==> final(self).policy.evict.has_key(item.key)
                && final(self).policy.evict.cost_of(item.key) == item.cost && final(self).policy.evict.used == old(self).policy.evict.used - old(self).policy.evict.cost_of(
                item.key,
            ) + item.cost) && (!old(self).policy.evict.has_key(item.key) ==> final(self).policy.evict == old(self).policy.evict),
            // a new item without a value is refused outright
            item.flag is ItemNew && item.value is None ==> r == false && final(self).store == old(self).store && final(self).policy.evict == old(self).policy.evict,
            // a new item with a value goes through admission
            item.flag is ItemNew ==> (item.value matches Some(v) ==> {
                &&& (!old(self).policy.evict.has_key(item.key) && item.cost <= old(self).max_cost
                    ==> (r <==> final(self).policy.evict.has_key(item.key)))
                &&& (r && (item.conflict == 0 || !old(self).store.has_key(item.key) || old(self).store.node_of(item.key).conflict == item.conflict) ==> final(self).store.has_key(
                    item.key,
                ) && final(self).store.node_of(item.key).key == item.key && final(self).store.node_of(item.key).conflict == item.conflict && final(self).store.node_of(
                    item.key,
                ).value == v && final(self).store.node_of(item.key).expiration == item.expiration)
                &&& (!r && !old(self).store.has_key(item.key) ==> !final(self).store.has_key(
                    item.key,
                ))
                &&& (forall|k2: u64|
                    k2 != item.key ==> ((#[trigger] final(self).store.has_key(k2)) ==> old(self).store.has_key(k2) && final(self).store.node_of(k2) == old(self).store.node_of(
                        k2,
                    )))
                &&& (r ==> final(self).policy.evict.used <= old(self).max_cost)
                &&& (!old(self).policy.evict.has_key(item.key) && old(self).policy.evict.used
                    <= old(self).max_cost ==> final(self).policy.evict.used <= old(self).max_cost)
            }),
    {
        proof {
            lemma_sum_nonneg(old(self).policy.evict.key_costs@);
        }
        match item.flag {
            ItemFlag::ItemNew => {
                match item.value {
                    Some(v) => {
                        let node = Node::new(item.key, item.conflict, v, item.expiration);
                        let ghost gnode = node;
                        let (victims, added) = self.policy.add(item.key, item.cost);
                        if added {
                            self.store.set(node);
                        }
                        proof {
                            assert forall|j: int| 0 <= j < victims@.len() implies (
                            #[trigger] victims@[j]).cost >= 0 by {
                                let k2 = victims@[j].key;
                                let s0 = old(self).policy.evict.key_costs@;
                                assert(s0[lfu_idx(s0, k2)].cost >= 0);
                            }
                            assert(nonneg_costs(victims@));
                            lemma_sum_nonneg(victims@);
                        }
                        let ghost conflict_ok = item.conflict == 0 || !old(self).store.has_key(
                            item.key,
                        ) || old(self).store.node_of(item.key).conflict == item.conflict;
                        let n = victims.len();
                        let mut i: usize = 0;
                        while i < n
                            invariant
                                self.store.wf(),
                                self.policy.wf(),
                                self.get_buf.wf(),
                                self.policy.evict.max_cost == self.max_cost,
                                self.max_cost == old(self).max_cost,
                                0 <= self.max_cost,
                                i <= n,
                                n == victims@.len(),
                                self.get_buf == old(self).get_buf,
                                self.policy.admitter@ == old(self).policy.admitter@,
                                gnode.key == item.key,
                                conflict_ok == (item.conflict == 0 || !old(self).store.has_key(
                                    item.key,
                                ) || old(self).store.node_of(item.key).conflict == item.conflict),
                                forall|j: int|
                                    0 <= j < victims@.len() ==> (#[trigger] victims@[j]).key
                                        != item.key,
                                added && conflict_ok ==> self.store.has_key(item.key)
                                    && self.store.node_of(item.key) == gnode,
                                !added && !old(self).store.has_key(item.key)
                                    ==> !self.store.has_key(item.key),
                                added && !conflict_ok && old(self).store.has_key(item.key)
                                    ==> self.store.has_key(item.key),
                                !old(self).policy.evict.has_key(item.key) && item.cost <= old(self).max_cost ==> (self.policy.evict.has_key(item.key) == added),
                                (!old(self).policy.evict.has_key(item.key) && old(self).policy.evict.used <= self.max_cost) ==> self.policy.evict.used
                                    <= self.max_cost,
                                added ==> self.policy.evict.used <= self.max_cost,
                                forall|k2: u64|
                                    k2 != item.key ==> ((#[trigger] self.store.has_key(k2))
                                        ==> old(self).store.has_key(k2) && self.store.node_of(k2)
                                        == old(self).store.node_of(k2)),
                            decreases n - i,
                        {
                            let vk = victims[i].key;
                            let zero: u64 = 0;
                            let _ = self.store.del(&vk, &zero);
                            i = i + 1;
                        }
                        added
                    },
                    None => false,
                }
            },
            ItemFlag::ItemUpdate => {
                self.policy.update(item.key, item.cost);
                true
            },
            ItemFlag::ItemDelete => {
                self.policy.del(&item.key);
                let _ = self.store.del(&item.key, &item.conflict);
                true
            },
        }
    }
}


} // verus!
