//! Admission and eviction policy: a TinyLFU frequency estimator (count-min
//! sketch behind a doorkeeper Bloom filter, aged periodically) combined with
//! a Sampled-LFU victim chooser that keeps the total cost of admitted keys
//! within a budget.

use vstd::prelude::*;
use crate::bloom::{Bloom, BloomModel, bm_wf, bm_has, bm_add, bm_clear, lemma_add_has,
    lemma_clear_has_none};
use crate::cache::{Metrics, bumped, DO_NOT_USE, KEY_UPDATE, COST_ADD, REJECT_SETS, KEEP_GETS};
use crate::cmsketch::{CmSketch, SketchModel, sm_wf, sm_increment, sm_increment_n, sm_clear,
    sm_estimate, lemma_increment_wf, lemma_clear_wf, lemma_clear_estimate, lemma_zero_estimate,
    lemma_sketch_saturation};

verus! {

/// Mathematical state of the TinyLFU estimator.
pub ghost struct TlModel {
    pub freq: SketchModel,
    pub door: BloomModel,
    pub incrs: int,
    pub reset_at: int,
}

pub open spec fn tl_wf(t: TlModel) -> bool {
    &&& sm_wf(t.freq)
    &&& bm_wf(t.door)
    &&& 0 <= t.incrs < t.reset_at
}

/// A reset zeroes the increment count, the doorkeeper and the sketch.
pub open spec fn tl_reset(t: TlModel) -> TlModel {
    TlModel { freq: sm_clear(t.freq), door: bm_clear(t.door), incrs: 0, reset_at: t.reset_at }
}

/// One touch of a key: a key the doorkeeper has not seen only sets its door
/// bits; a key it has seen goes into the sketch.
pub open spec fn tl_touch(t: TlModel, key: u64) -> TlModel {
    if bm_has(t.door, key) {
        TlModel { freq: sm_increment(t.freq, key), ..t }
    } else {
        TlModel { door: bm_add(t.door, key), ..t }
    }
}

/// One increment: touch the key, count it, and reset once the count reaches
/// `reset_at`.
pub open spec fn tl_increment(t: TlModel, key: u64) -> TlModel {
    let t1 = TlModel { incrs: t.incrs + 1, ..tl_touch(t, key) };
    if t1.incrs >= t1.reset_at {
        tl_reset(t1)
    } else {
        t1
    }
}

/// The estimate of a key: its sketch estimate, plus one if the doorkeeper
/// holds it.
pub open spec fn tl_estimate(t: TlModel, key: u64) -> int {
    sm_estimate(t.freq, key) + if bm_has(t.door, key) {
        1int
    } else {
        0int
    }
}

/// Increments applied left to right over a batch of keys.
pub open spec fn tl_push(t: TlModel, keys: Seq<u64>) -> TlModel
    decreases keys.len(),
{
    if keys.len() == 0 {
        t
    } else {
        tl_increment(tl_push(t, keys.drop_last()), keys.last())
    }
}

pub proof fn lemma_touch_wf(t: TlModel, key: u64)
    requires
        tl_wf(t),
    ensures
        sm_wf(tl_touch(t, key).freq),
        bm_wf(tl_touch(t, key).door),
        tl_touch(t, key).incrs == t.incrs,
        tl_touch(t, key).reset_at == t.reset_at,
        tl_wf(tl_increment(t, key)),
{
    lemma_increment_wf(t.freq, key);
    lemma_add_has(t.door, key);
    lemma_clear_wf(tl_touch(t, key).freq);
}

/// Doorkeeper first touch: right after a reset, the first increment of a key
/// leaves the sketch untouched (the doorkeeper absorbs it), while the second
/// increment raises the sketch estimate from 0 to 1.
pub proof fn lemma_doorkeeper_first_touch(t: TlModel, key: u64)
    requires
        tl_wf(t),
        t.reset_at > 2,
    ensures
        ({
            let c = tl_reset(t);
            let one = tl_increment(c, key);
            let two = tl_increment(one, key);
            &&& sm_estimate(one.freq, key) == sm_estimate(c.freq, key)
            &&& sm_estimate(c.freq, key) == 0
            &&& sm_estimate(two.freq, key) == 1
        }),
{
    let c = tl_reset(t);
    lemma_clear_wf(t.freq);
    lemma_clear_estimate(t.freq, key);
    lemma_clear_has_none(t.door, key);
    assert(tl_wf(c));
    let one = tl_increment(c, key);
    assert(!bm_has(c.door, key));
    lemma_add_has(c.door, key);
    assert(one.freq == c.freq);
    let two = tl_increment(one, key);
    assert(bm_has(one.door, key));
    assert(two.freq == sm_increment(one.freq, key));
    lemma_sketch_saturation(one.freq, key, 1);
    assert(sm_increment_n(one.freq, key, 0) == one.freq);
    assert(sm_increment_n(one.freq, key, 1) == sm_increment(one.freq, key));
}

/// Clearing twice leaves the estimator exactly as clearing once does.
pub proof fn lemma_tl_clear_idempotent(t: TlModel)
    requires
        tl_wf(t),
    ensures
        tl_reset(tl_reset(t)) == tl_reset(t),
{
    let c = tl_reset(t);
    let cc = tl_reset(c);
    assert(cc.freq.counters =~~= c.freq.counters);
    assert(cc.door.bits =~= c.door.bits);
    assert(cc.freq == c.freq);
    assert(cc.door == c.door);
}

/// TinyLFU estimator: a count-min sketch guarded by a doorkeeper Bloom
/// filter, reset after `reset_at` increments.
pub struct TinyLFU {
    pub freq: CmSketch,
    pub door: Bloom,
    pub incrs: i64,
    pub reset_at: i64,
}

impl View for TinyLFU {
    type V = TlModel;

    closed spec fn view(&self) -> TlModel {
        TlModel {
            freq: self.freq@,
            door: self.door@,
            incrs: self.incrs as int,
            reset_at: self.reset_at as int,
        }
    }
}

impl TinyLFU {
    pub open spec fn wf(&self) -> bool {
        &&& self.freq.wf()
        &&& tl_wf(self@)
    }

    /// Builds an estimator for `num_counter` keys: a sketch of at least that
    /// many counters, a doorkeeper sized for ten bits per counter probed
    /// seven times (about a one percent false-positive rate), and a reset
    /// period of `num_counter` increments.
    pub fn new(num_counter: i64) -> (t: TinyLFU)
        requires
            2 <= num_counter <= 0x1999_9999,
        ensures
            t.wf(),
            t@.incrs == 0,
            t@.reset_at == num_counter,
            forall|k: u64| !bm_has(t@.door, k),
            forall|k: u64| sm_estimate(t@.freq, k) == 0,
            forall|k: u64| tl_estimate(t@, k) == 0,
    {
        let freq = CmSketch::new(num_counter);
        let door = Bloom::new((num_counter as u64) * 10, 7);
        let t = TinyLFU { freq, door, incrs: 0, reset_at: num_counter };
        proof {
            t.freq.lemma_wf_model();
            assert forall|k: u64| sm_estimate(t@.freq, k) == 0 by {
                lemma_zero_estimate(t@.freq, k);
            }
        }
        t
    }

    /// The estimate of a key.
    pub fn estimate(&self, key: u64) -> (r: i64)
        requires
            self.wf(),
        ensures
            r == tl_estimate(self@, key),
            0 <= r <= 16,
    {
        let mut hits = self.freq.estimate(key);
        if self.door.has(key) {
            hits += 1;
        }
        hits
    }

    /// One access of a key: the doorkeeper absorbs the first touch, later
    /// touches go into the sketch; the whole estimator resets after
    /// `reset_at` increments.
    pub fn increment(&mut self, key: u64)
        requires
            old(self).wf(),
        ensures
            final(self).wf(),
            final(self)@ == tl_increment(old(self)@, key),
    {
        proof {
            lemma_touch_wf(old(self)@, key);
        }
        let added = self.door.add_if_not_has(key);
        if !added {
            self.freq.increment(key);
        }
        self.incrs += 1;
        if self.incrs >= self.reset_at {
            self.reset();
        }
    }

    /// Applies one increment per key of the batch, in order.
    pub fn push(&mut self, keys: Vec<u64>)
        requires
            old(self).wf(),
        ensures
            final(self).wf(),
            final(self)@ == tl_push(old(self)@, keys@),
    {
        let n = keys.len();
        let mut i: usize = 0;
        while i < n
            invariant
                self.wf(),
                i <= n,
                n == keys@.len(),
                self@ == tl_push(old(self)@, keys@.take(i as int)),
            decreases n - i,
        {
            self.increment(keys[i]);
            proof {
                assert(keys@.take(i as int + 1).drop_last() =~= keys@.take(i as int));
                assert(keys@.take(i as int + 1).last() == keys@[i as int]);
            }
            i = i + 1;
        }
        proof {
            assert(keys@.take(n as int) =~= keys@);
        }
    }

    /// Zeroes the increment count, the doorkeeper and the sketch.
    pub fn clear(&mut self)
        requires
            old(self).wf(),
        ensures
            final(self).wf(),
            final(self)@ == tl_reset(old(self)@),
    {
        self.incrs = 0;
        self.door.clear();
        self.freq.clear();
    }

    /// The periodic aging step; here, as in `clear`, everything is zeroed.
    fn reset(&mut self)
        requires
            old(self).wf() || (old(self).freq.wf() && sm_wf(old(self)@.freq) && bm_wf(
                old(self)@.door,
            ) && 0 < old(self)@.reset_at <= old(self)@.incrs),
        ensures
            final(self).wf(),
            final(self)@ == tl_reset(old(self)@),
    {
        self.incrs = 0;
        self.door.clear();
        self.freq.clear();
    }
}

/// Number of eviction candidates kept in the sample.
pub const LFU_SAMPLE: usize = 5;

/// A key together with its cost, as tracked by the Sampled-LFU.
#[derive(Clone, Copy)]
pub struct PolicyPair {
    pub key: u64,
    pub cost: i64,
}

pub open spec fn lfu_contains(s: Seq<PolicyPair>, key: u64) -> bool {
    exists|i: int| 0 <= i < s.len() && s[i].key == key
}

pub open spec fn lfu_idx(s: Seq<PolicyPair>, key: u64) -> int {
    choose|i: int| 0 <= i < s.len() && s[i].key == key
}

pub open spec fn lfu_cost(s: Seq<PolicyPair>, key: u64) -> int {
    s[lfu_idx(s, key)].cost as int
}

pub open spec fn sum_costs(s: Seq<PolicyPair>) -> int
    decreases s.len(),
{
    if s.len() == 0 {
        0
    } else {
        sum_costs(s.drop_last()) + s.last().cost
    }
}

pub open spec fn distinct_keys(s: Seq<PolicyPair>) -> bool {
    forall|i: int, j: int| 0 <= i < j < s.len() ==> s[i].key != s[j].key
}

pub open spec fn nonneg_costs(s: Seq<PolicyPair>) -> bool {
    forall|i: int| 0 <= i < s.len() ==> (#[trigger] s[i]).cost >= 0
}

pub proof fn lemma_idx_unique(s: Seq<PolicyPair>, key: u64, j: int)
    requires
        distinct_keys(s),
        0 <= j < s.len(),
        s[j].key == key,
    ensures
        lfu_idx(s, key) == j,
        lfu_cost(s, key) == s[j].cost,
{
    let i = lfu_idx(s, key);
    assert(0 <= i < s.len() && s[i].key == key);
}

pub proof fn lemma_sum_nonneg(s: Seq<PolicyPair>)
    requires
        nonneg_costs(s),
    ensures
        sum_costs(s) >= 0,
    decreases s.len(),
{
    if s.len() > 0 {
        assert(nonneg_costs(s.drop_last()));
        lemma_sum_nonneg(s.drop_last());
    }
}

pub proof fn lemma_sum_push(s: Seq<PolicyPair>, p: PolicyPair)
    ensures
        sum_costs(s.push(p)) == sum_costs(s) + p.cost,
{
    assert(s.push(p).drop_last() =~= s);
}

pub proof fn lemma_sum_update(s: Seq<PolicyPair>, i: int, p: PolicyPair)
    requires
        0 <= i < s.len(),
    ensures
        sum_costs(s.update(i, p)) == sum_costs(s) - s[i].cost + p.cost,
    decreases s.len(),
{
    if i == s.len() - 1 {
        assert(s.update(i, p).drop_last() =~= s.drop_last());
        assert(s.update(i, p).last() == p);
    } else {
        assert(s.update(i, p).drop_last() =~= s.drop_last().update(i, p));
        lemma_sum_update(s.drop_last(), i, p);
    }
}

pub proof fn lemma_sum_remove(s: Seq<PolicyPair>, i: int)
    requires
        0 <= i < s.len(),
    ensures
        sum_costs(s.remove(i)) == sum_costs(s) - s[i].cost,
    decreases s.len(),
{
    if i == s.len() - 1 {
        assert(s.remove(i) =~= s.drop_last());
    } else {
        assert(s.remove(i).drop_last() =~= s.drop_last().remove(i));
        lemma_sum_remove(s.drop_last(), i);
        assert(s.remove(i).last() == s.last());
    }
}

pub proof fn lemma_cost_le_sum(s: Seq<PolicyPair>, i: int)
    requires
        nonneg_costs(s),
        0 <= i < s.len(),
    ensures
        s[i].cost <= sum_costs(s),
    decreases s.len(),
{
    if i == s.len() - 1 {
        assert(nonneg_costs(s.drop_last()));
        lemma_sum_nonneg(s.drop_last());
    } else {
        assert(nonneg_costs(s.drop_last()));
        lemma_cost_le_sum(s.drop_last(), i);
        assert(s.drop_last()[i] == s[i]);
    }
}

/// Cost accounting: in a well-formed eviction state, `used` is exactly the
/// sum of all tracked costs and never negative; together with the admission
/// checks of `DefaultPolicy::add` this keeps the tracked total within the
/// budget.
pub proof fn lemma_used_is_total_cost(l: SampledLFU)
    requires
        l.wf(),
    ensures
        l.used == sum_costs(l.key_costs@),
        l.used >= 0,
{
    lemma_sum_nonneg(l.key_costs@);
}

/// Cleared eviction states are indistinguishable: however a state was
/// emptied, it tracks no key and no cost, so clearing twice leaves exactly
/// what one clear leaves.
pub proof fn lemma_lfu_cleared_states_agree(a: SampledLFU, b: SampledLFU)
    requires
        a.wf(),
        b.wf(),
        a.max_cost == b.max_cost,
        a.key_count() == 0,
        b.key_count() == 0,
    ensures
        a.used == b.used,
        forall|k: u64| a.has_key(k) == b.has_key(k),
{
}

/// Sampled-LFU bookkeeping: each tracked key with its cost, the budget
/// `max_cost`, and `used`, the sum of all tracked costs.
pub struct SampledLFU {
    pub key_costs: Vec<PolicyPair>,
    pub max_cost: i64,
    pub used: i64,
}

impl SampledLFU {
    pub open spec fn wf(&self) -> bool {
        &&& distinct_keys(self.key_costs@)
        &&& nonneg_costs(self.key_costs@)
        &&& self.used == sum_costs(self.key_costs@)
        &&& 0 <= self.max_cost
    }

    pub open spec fn has_key(&self, key: u64) -> bool {
        lfu_contains(self.key_costs@, key)
    }

    pub open spec fn cost_of(&self, key: u64) -> int {
        lfu_cost(self.key_costs@, key)
    }

    pub open spec fn key_count(&self) -> int {
        self.key_costs@.len() as int
    }

    pub fn new(max_cost: i64) -> (l: SampledLFU)
        requires
            max_cost >= 0,
        ensures
            l.wf(),
            l.max_cost == max_cost,
            l.used == 0,
            l.key_count() == 0,
            forall|k: u64| !l.has_key(k),
    {
        SampledLFU { key_costs: Vec::new(), max_cost, used: 0 }
    }

    /// The room that would be left after admitting `cost` more.
    pub fn room_left(&self, cost: i64) -> (r: i64)
        requires
            self.wf(),
            0 <= cost,
            self.used + cost <= i64::MAX,
        ensures
            r == self.max_cost - (self.used + cost),
    {
        proof {
            lemma_sum_nonneg(self.key_costs@);
        }
        self.max_cost - (self.used + cost)
    }

    /// The cost stored for a key, if any.
    pub fn get(&self, key: &u64) -> (r: Option<i64>)
        requires
            self.wf(),
        ensures
            r is Some <==> self.has_key(*key),
            r matches Some(c) ==> c == self.cost_of(*key),
    {
        let n = self.key_costs.len();
        let mut i: usize = 0;
        while i < n
            invariant
                self.wf(),
                i <= n,
                n == self.key_costs@.len(),
                forall|j: int| 0 <= j < i ==> self.key_costs@[j].key != *key,
            decreases n - i,
        {
            if self.key_costs[i].key == *key {
                proof {
                    lemma_idx_unique(self.key_costs@, *key, i as int);
                }
                return Some(self.key_costs[i].cost);
            }
            i = i + 1;
        }
        None
    }

    /// Inserts a fresh key; the caller has already reserved the room.
    pub fn add(&mut self, key: u64, cost: i64)
        requires
            old(self).wf(),
            0 <= cost,
            !old(self).has_key(key),
            old(self).used + cost <= old(self).max_cost,
        ensures
            final(self).wf(),
            final(self).max_cost == old(self).max_cost,
            final(self).used == old(self).used + cost,
            final(self).key_count() == old(self).key_count() + 1,
            final(self).has_key(key),
            final(self).cost_of(key) == cost,
            forall|k2: u64|
                k2 != key ==> (final(self).has_key(k2) == old(self).has_key(k2) && (old(self).has_key(k2) ==> final(self).cost_of(k2) == old(self).cost_of(k2))),
    {
        let p = PolicyPair { key, cost };
        proof {
            lemma_sum_push(self.key_costs@, p);
        }
        self.key_costs.push(p);
        self.used = self.used + cost;
        proof {
            let s = self.key_costs@;
            let s0 = old(self).key_costs@;
            assert(distinct_keys(s)) by {
                assert forall|i: int, j: int| 0 <= i < j < s.len() implies s[i].key != s[j].key by {
                    if j == s.len() - 1 {
                        assert(s[i] == s0[i]);
                    }
                }
            }
            lemma_idx_unique(s, key, s.len() - 1);
            assert forall|k2: u64| k2 != key implies (final(self).has_key(k2) == old(self).has_key(k2) && (old(self).has_key(k2) ==> final(self).cost_of(k2) == old(self).cost_of(k2))) by {
                if old(self).has_key(k2) {
                    let j = lfu_idx(s0, k2);
                    assert(s[j] == s0[j]);
                    lemma_idx_unique(s, k2, j);
                } else {
                    if final(self).has_key(k2) {
                        let j = lfu_idx(s, k2);
                        assert(s0[j] == s[j]);
                    }
                }
            }
        }
    }

    /// Removes a key and credits its cost back; absent keys are left alone.
    pub fn del(&mut self, key: &u64)
        requires
            old(self).wf(),
        ensures
            final(self).wf(),
            final(self).max_cost == old(self).max_cost,
            !old(self).has_key(*key) ==> *final(self) == *old(self),
            old(self).has_key(*key) ==> {
                &&& final(self).used == old(self).used - old(self).cost_of(*key)
                &&& final(self).key_count() == old(self).key_count() - 1
                &&& !final(self).has_key(*key)
            },
            forall|k2: u64|
                k2 != *key ==> (final(self).has_key(k2) == old(self).has_key(k2) && (old(self).has_key(k2) ==> final(self).cost_of(k2) == old(self).cost_of(k2))),
    {
        let n = self.key_costs.len();
        let mut i: usize = 0;
        while i < n
            invariant
                self == old(self),
                self.wf(),
                i <= n,
                n == self.key_costs@.len(),
                forall|j: int| 0 <= j < i ==> self.key_costs@[j].key != *key,
            decreases n - i,
        {
            if self.key_costs[i].key == *key {
                proof {
                    lemma_idx_unique(self.key_costs@, *key, i as int);
                    lemma_sum_remove(self.key_costs@, i as int);
                    lemma_cost_le_sum(self.key_costs@, i as int);
                }
                let c = self.key_costs[i].cost;
                self.key_costs.remove(i);
                self.used = self.used - c;
                proof {
                    let s = self.key_costs@;
                    let s0 = old(self).key_costs@;
                    assert forall|a: int, b: int| 0 <= a < b < s.len() implies s[a].key
                        != s[b].key by {
                        let a0 = if a < i { a } else { a + 1 };
                        let b0 = if b < i { b } else { b + 1 };
                        assert(s[a] == s0[a0] && s[b] == s0[b0]);
                    }
                    assert forall|a: int| 0 <= a < s.len() implies (#[trigger] s[a]).cost >= 0 by {
                        let a0 = if a < i { a } else { a + 1 };
                        assert(s[a] == s0[a0]);
                    }
                    assert(!lfu_contains(s, *key)) by {
                        if lfu_contains(s, *key) {
                            let j = lfu_idx(s, *key);
                            let j0 = if j < i { j } else { j + 1 };
                            assert(s[j] == s0[j0]);
                            lemma_idx_unique(s0, *key, j0);
                        }
                    }
                    assert forall|k2: u64| k2 != *key implies (lfu_contains(s, k2)
                        == lfu_contains(s0, k2) && (lfu_contains(s0, k2) ==> lfu_cost(s, k2)
                        == lfu_cost(s0, k2))) by {
                        if lfu_contains(s0, k2) {
                            let j0 = lfu_idx(s0, k2);
                            let j = if j0 < i { j0 } else { j0 - 1 };
                            assert(j0 != i);
                            assert(s[j] == s0[j0]);
                            lemma_idx_unique(s, k2, j);
                        } else {
                            if lfu_contains(s, k2) {
                                let j = lfu_idx(s, k2);
                                let j0 = if j < i { j } else { j + 1 };
                                assert(s0[j0] == s[j]);
                            }
                        }
                    }
                }
                return ;
            }
            i = i + 1;
        }
    }

    /// Re-costs a key that is present and reports whether it was; the
    /// difference is charged against `used`.
    pub fn update_if_has(&mut self, key: u64, cost: i64) -> (updated: bool)
        requires
            old(self).wf(),
            0 <= cost,
            old(self).used + cost <= i64::MAX,
        ensures
            final(self).wf(),
            final(self).max_cost == old(self).max_cost,
            updated == old(self).has_key(key),
            !updated ==> *final(self) == *old(self),
            updated ==> {
                &&& final(self).used == old(self).used - old(self).cost_of(key) + cost
                &&& final(self).key_count() == old(self).key_count()
                &&& final(self).has_key(key)
                &&& final(self).cost_of(key) == cost
            },
            forall|k2: u64|
                k2 != key ==> (final(self).has_key(k2) == old(self).has_key(k2) && (old(self).has_key(k2) ==> final(self).cost_of(k2) == old(self).cost_of(k2))),
    {
        let n = self.key_costs.len();
        let mut i: usize = 0;
        while i < n
            invariant
                self == old(self),
                self.wf(),
                0 <= cost,
                self.used + cost <= i64::MAX,
                i <= n,
                n == self.key_costs@.len(),
                forall|j: int| 0 <= j < i ==> self.key_costs@[j].key != key,
            decreases n - i,
        {
            if self.key_costs[i].key == key {
                proof {
                    lemma_idx_unique(self.key_costs@, key, i as int);
                    lemma_sum_update(self.key_costs@, i as int, PolicyPair { key, cost });
                    lemma_cost_le_sum(self.key_costs@, i as int);
                }
                let old_c = self.key_costs[i].cost;
                proof {
                    assert(old(self).key_costs@[i as int].cost >= 0);
                    lemma_sum_nonneg(old(self).key_costs@);
                }
                self.key_costs.set(i, PolicyPair { key, cost });
                self.used = self.used - old_c + cost;
                proof {
                    let s = self.key_costs@;
                    let s0 = old(self).key_costs@;
                    assert forall|a: int, b: int| 0 <= a < b < s.len() implies s[a].key
                        != s[b].key by {
                        assert(s[a].key == s0[a].key && s[b].key == s0[b].key);
                    }
                    assert forall|a: int| 0 <= a < s.len() implies (#[trigger] s[a]).cost >= 0 by {
                        if a != i {
                            assert(s[a] == s0[a]);
                        }
                    }
                    lemma_idx_unique(s, key, i as int);
                    assert forall|k2: u64| k2 != key implies (lfu_contains(s, k2) == lfu_contains(
                        s0,
                        k2,
                    ) && (lfu_contains(s0, k2) ==> lfu_cost(s, k2) == lfu_cost(s0, k2))) by {
                        if lfu_contains(s0, k2) {
                            let j0 = lfu_idx(s0, k2);
                            assert(j0 != i);
                            assert(s[j0] == s0[j0]);
                            lemma_idx_unique(s, k2, j0);
                        } else {
                            if lfu_contains(s, k2) {
                                let j = lfu_idx(s, k2);
                                assert(j != i);
                                assert(s0[j] == s[j]);
                            }
                        }
                    }
                }
                return true;
            }
            i = i + 1;
        }
        false
    }

    /// Tops the sample up to `LFU_SAMPLE` entries with tracked pairs whose
    /// keys the sample does not hold yet; when it returns fewer, every
    /// tracked key is already in the sample.
    pub fn fill_sample(&self, input: &mut Vec<PolicyPair>)
        requires
            self.wf(),
        ensures
            final(input)@.len() >= old(input)@.len(),
            final(input)@.take(old(input)@.len() as int) == old(input)@,
            final(input)@.len() <= if old(input)@.len() >= LFU_SAMPLE {
                old(input)@.len() as int
            } else {
                LFU_SAMPLE as int
            },
            forall|j: int|
                old(input)@.len() <= j < final(input)@.len() ==> {
                    &&& self.has_key(#[trigger] final(input)@[j].key)
                    &&& final(input)@[j].cost == self.cost_of(final(input)@[j].key)
                    &&& forall|j2: int| 0 <= j2 < j ==> final(input)@[j2].key != final(input)@[j].key
                },
            final(input)@.len() < LFU_SAMPLE ==> forall|k: u64|
                self.has_key(k) ==> exists|j: int|
                    0 <= j < final(input)@.len() && (#[trigger] final(input)@[j]).key == k,
    {
        let n = self.key_costs.len();
        let mut i: usize = 0;
        while i < n
            invariant
                self.wf(),
                i <= n,
                n == self.key_costs@.len(),
                input@.len() >= old(input)@.len(),
                input@.take(old(input)@.len() as int) == old(input)@,
                input@.len() <= if old(input)@.len() >= LFU_SAMPLE {
                    old(input)@.len() as int
                } else {
                    LFU_SAMPLE as int
                },
                forall|j: int|
                    old(input)@.len() <= j < input@.len() ==> {
                        &&& self.has_key(#[trigger] input@[j].key)
                        &&& input@[j].cost == self.cost_of(input@[j].key)
                        &&& forall|j2: int| 0 <= j2 < j ==> input@[j2].key != input@[j].key
                    },
                input@.len() < LFU_SAMPLE ==> forall|j0: int|
                    0 <= j0 < i ==> exists|j: int|
                        0 <= j < input@.len() && (#[trigger] input@[j]).key == (
                        #[trigger] self.key_costs@[j0]).key,
            decreases n - i,
        {
            if input.len() >= LFU_SAMPLE {
                proof {
                    assert(old(input)@.len() < LFU_SAMPLE ==> input@.len() == LFU_SAMPLE);
                }
                return ;
            }
            let p = self.key_costs[i];
            let mut present = false;
            let in_len = input.len();
            let mut j: usize = 0;
            while j < in_len
                invariant
                    j <= in_len,
                    in_len == input@.len(),
                    present == exists|j2: int| 0 <= j2 < j && (#[trigger] input@[j2]).key == p.key,
                decreases in_len - j,
            {
                if input[j].key == p.key {
                    present = true;
                }
                j = j + 1;
            }
            let ghost pre = input@;
            if !present {
                proof {
                    lemma_idx_unique(self.key_costs@, p.key, i as int);
                    assert(input@.push(p).take(old(input)@.len() as int) =~= input@.take(
                        old(input)@.len() as int,
                    ));
                }
                input.push(p);
            }
            proof {
                if input@.len() < LFU_SAMPLE {
                    assert forall|j0: int| 0 <= j0 < i + 1 implies exists|j: int|
                        0 <= j < input@.len() && (#[trigger] input@[j]).key == (
                        #[trigger] self.key_costs@[j0]).key by {
                        if j0 < i {
                            let wj = choose|wj: int|
                                0 <= wj < pre.len() && (#[trigger] pre[wj]).key
                                    == self.key_costs@[j0].key;
                            assert(input@[wj] == pre[wj]);
                        } else {
                            if present {
                                let wj = choose|wj: int|
                                    0 <= wj < pre.len() && (#[trigger] pre[wj]).key == p.key;
                                assert(input@[wj] == pre[wj]);
                            } else {
                                assert(input@[pre.len() as int].key == p.key);
                            }
                        }
                    }
                }
            }
            i = i + 1;
        }
    }

    /// Forgets every key and zeroes `used`.
    pub fn clear(&mut self)
        requires
            old(self).wf(),
        ensures
            final(self).wf(),
            final(self).max_cost == old(self).max_cost,
            final(self).used == 0,
            final(self).key_count() == 0,
            forall|k: u64| !final(self).has_key(k),
    {
        self.used = 0;
        self.key_costs = Vec::new();
    }
}

/// A sample that justifies a rejection: distinct resident keys, filled to
/// `LFU_SAMPLE` entries (or to the whole eviction state when it holds
/// fewer), every one of which the estimator ranks above the offered key.
pub open spec fn rejection_witness(
    s: Seq<PolicyPair>,
    evict: SampledLFU,
    t: TlModel,
    key: u64,
) -> bool {
    &&& distinct_keys(s)
    &&& (s.len() >= LFU_SAMPLE || (forall|k2: u64| evict.has_key(k2) ==> lfu_contains(s, k2)))
    &&& forall|j: int|
        0 <= j < s.len() ==> evict.has_key((#[trigger] s[j]).key) && tl_estimate(t, s[j].key)
            > tl_estimate(t, key)
}

/// The TinyLFU admission estimator glued to the Sampled-LFU eviction state:
/// `add` weighs an incoming key against randomly sampled residents and evicts
/// or rejects; reads reach the estimator in batches through `push`.
pub struct DefaultPolicy {
    pub admitter: TinyLFU,
    pub evict: SampledLFU,
    pub metrics: Metrics,
    pub track_metrics: bool,
}

impl DefaultPolicy {
    pub open spec fn wf(&self) -> bool {
        &&& self.admitter.wf()
        &&& self.evict.wf()
        &&& self.metrics.wf()
    }

    /// A policy over `number_counters` frequency counters and a cost budget
    /// of `max_cost`; counters are kept only when a metrics sink is given.
    pub fn new(number_counters: i64, max_cost: i64, metrics: Option<Metrics>) -> (p: DefaultPolicy)
        requires
            2 <= number_counters <= 0x1999_9999,
            0 <= max_cost,
            metrics matches Some(m) ==> m.wf(),
        ensures
            p.wf(),
            p.evict.max_cost == max_cost,
            p.evict.used == 0,
            p.evict.key_count() == 0,
            forall|k: u64| !p.evict.has_key(k),
            p.admitter@.incrs == 0,
            p.admitter@.reset_at == number_counters,
            forall|k: u64| tl_estimate(p.admitter@, k) == 0,
    {
        let (m, track) = match metrics {
            Some(m) => (m, true),
            None => (Metrics::new(DO_NOT_USE), false),
        };
        DefaultPolicy {
            admitter: TinyLFU::new(number_counters),
            evict: SampledLFU::new(max_cost),
            metrics: m,
            track_metrics: track,
        }
    }

    /// Hands a batch of read keys to the estimator and counts the kept
    /// reads. The batch is always kept here: nothing else contends for the
    /// estimator.
    pub fn push(&mut self, keys: Vec<u64>) -> (kept: bool)
        requires
            old(self).wf(),
        ensures
            final(self).wf(),
            kept,
            final(self).evict == old(self).evict,
            final(self).track_metrics == old(self).track_metrics,
            final(self).admitter@ == if keys@.len() == 0 {
                old(self).admitter@
            } else {
                tl_push(old(self).admitter@, keys@)
            },
            final(self).metrics@ == if keys@.len() > 0 && old(self).track_metrics {
                bumped(old(self).metrics@, KEEP_GETS as int, keys@[0], keys@.len() as u64)
            } else {
                old(self).metrics@
            },
    {
        if keys.len() == 0 {
            return true;
        }
        let h0 = keys[0];
        let n64 = keys.len() as u64;
        self.admitter.push(keys);
        if self.track_metrics {
            self.metrics.add(KEEP_GETS, h0, n64);
        }
        true
    }

    /// Offers `key` at `cost`. Returns the evicted pairs and whether the key
    /// was admitted as a new entry: an oversized item is refused outright; a
    /// key already tracked is only re-costed (an update, not an addition);
    /// with room to spare the key is admitted with no victims; otherwise
    /// sampled residents with the lowest estimates are evicted until the key
    /// fits, unless one of them outranks the key, which rejects it.
    pub fn add(&mut self, key: u64, cost: i64) -> (r: (Vec<PolicyPair>, bool))
        requires
            old(self).wf(),
            0 <= cost,
            old(self).evict.used + cost <= i64::MAX,
        ensures
            final(self).wf(),
            final(self).admitter@ == old(self).admitter@,
            final(self).evict.max_cost == old(self).evict.max_cost,
            cost > old(self).evict.max_cost ==> r.0@.len() == 0 && r.1 == false && final(self).evict == old(self).evict,
            cost <= old(self).evict.max_cost && old(self).evict.has_key(key) ==> {
                &&& r.0@.len() == 0
                &&& r.1 == false
                &&& final(self).evict.has_key(key)
                &&& final(self).evict.cost_of(key) == cost
                &&& final(self).evict.used == old(self).evict.used - old(self).evict.cost_of(key)
                    + cost
                &&& final(self).evict.key_count() == old(self).evict.key_count()
            },
            cost <= old(self).evict.max_cost && !old(self).evict.has_key(key) && old(self).evict.used + cost <= old(self).evict.max_cost ==> r.0@.len() == 0 && r.1 == true
                && final(self).evict.used == old(self).evict.used + cost,
            !old(self).evict.has_key(key) && cost <= old(self).evict.max_cost ==> ((r.1 <==> final(self).evict.has_key(key)) && (r.1 ==> final(self).evict.cost_of(key) == cost)),
            r.1 ==> final(self).evict.used <= final(self).evict.max_cost,
            forall|j: int|
                0 <= j < r.0@.len() ==> {
                    &&& old(self).evict.has_key((#[trigger] r.0@[j]).key)
                    &&& r.0@[j].cost == old(self).evict.cost_of(r.0@[j].key)
                    &&& !final(self).evict.has_key(r.0@[j].key)
                    &&& r.0@[j].key != key
                },
            distinct_keys(r.0@),
            forall|k2: u64|
                k2 != key && !lfu_contains(r.0@, k2) ==> (final(self).evict.has_key(k2) == old(self).evict.has_key(k2) && (old(self).evict.has_key(k2) ==> final(self).evict.cost_of(k2) == old(self).evict.cost_of(k2))),
            !old(self).evict.has_key(key) && cost <= old(self).evict.max_cost && old(self).evict.used + cost > old(self).evict.max_cost ==> final(self).evict.used == old(self).evict.used - sum_costs(r.0@) + if r.1 {
                cost as int
            } else {
                0int
            },
            (!r.1 && cost <= old(self).evict.max_cost && !old(self).evict.has_key(key)) ==> exists|
                s: Seq<PolicyPair>,
            | #[trigger]
                rejection_witness(s, final(self).evict, old(self).admitter@, key),
            r.1 && r.0@.len() > 0 ==> final(self).evict.used + r.0@.last().cost > final(self).evict.max_cost,
            final(self).track_metrics == old(self).track_metrics,
            cost > old(self).evict.max_cost ==> final(self).metrics@ == old(self).metrics@,
            cost <= old(self).evict.max_cost && old(self).evict.has_key(key) ==> final(self).metrics@ == if old(self).track_metrics {
                if cost > 0 {
                    bumped(
                        bumped(old(self).metrics@, KEY_UPDATE as int, key, 1),
                        COST_ADD as int,
                        key,
                        cost as u64,
                    )
                } else {
                    bumped(old(self).metrics@, KEY_UPDATE as int, key, 1)
                }
            } else {
                old(self).metrics@
            },
            cost <= old(self).evict.max_cost && !old(self).evict.has_key(key) && r.1 ==> final(self).metrics@ == old(self).metrics@,
            cost <= old(self).evict.max_cost && !old(self).evict.has_key(key) && !r.1 ==> final(self).metrics@ == if old(self).track_metrics {
                bumped(old(self).metrics@, REJECT_SETS as int, key, 1)
            } else {
                old(self).metrics@
            },
    {
        if cost > self.evict.max_cost {
            return (Vec::new(), false);
        }
        if self.evict.update_if_has(key, cost) {
            if self.track_metrics {
                self.metrics.add(KEY_UPDATE, key, 1);
                if cost > 0 {
                    self.metrics.add(COST_ADD, key, cost as u64);
                }
            }
            return (Vec::new(), false);
        }
        let mut room = self.evict.room_left(cost);
        if room >= 0 {
            self.evict.add(key, cost);
            return (Vec::new(), true);
        }
        let inc_hits = self.admitter.estimate(key);
        let mut sample: Vec<PolicyPair> = Vec::new();
        let mut victims: Vec<PolicyPair> = Vec::new();
        let ghost e0 = old(self).evict;
        while room < 0
            invariant
                self.wf(),
                e0 == old(self).evict,
                inc_hits == tl_estimate(old(self).admitter@, key),
                self.admitter == old(self).admitter,
                self.metrics == old(self).metrics,
                self.track_metrics == old(self).track_metrics,
                0 <= cost <= e0.max_cost,
                e0.wf(),
                e0.used + cost <= i64::MAX,
                self.evict.max_cost == e0.max_cost,
                0 <= self.evict.used <= e0.used,
                room == e0.max_cost - (self.evict.used + cost),
                !e0.has_key(key),
                !self.evict.has_key(key),
                distinct_keys(sample@),
                forall|j: int|
                    0 <= j < sample@.len() ==> self.evict.has_key((#[trigger] sample@[j]).key)
                        && sample@[j].cost == self.evict.cost_of(sample@[j].key),
                distinct_keys(victims@),
                !lfu_contains(victims@, key),
                forall|j: int|
                    0 <= j < victims@.len() ==> {
                        &&& e0.has_key((#[trigger] victims@[j]).key)
                        &&& victims@[j].cost == e0.cost_of(victims@[j].key)
                        &&& !self.evict.has_key(victims@[j].key)
                    },
                forall|k2: u64|
                    k2 != key && !lfu_contains(victims@, k2) ==> (self.evict.has_key(k2)
                        == e0.has_key(k2) && (e0.has_key(k2) ==> self.evict.cost_of(k2)
                        == e0.cost_of(k2))),
                self.evict.used == e0.used - sum_costs(victims@),
                victims@.len() > 0 ==> self.evict.used + victims@.last().cost + cost
                    > e0.max_cost,
            decreases self.evict.key_count(),
        {
            proof {
                lemma_sum_nonneg(self.evict.key_costs@);
            }
            let ghost pre_s = sample@;
            self.evict.fill_sample(&mut sample);
            proof {
                let pl = pre_s.len() as int;
                assert forall|j: int| 0 <= j < sample@.len() implies self.evict.has_key(
                    (#[trigger] sample@[j]).key,
                ) && sample@[j].cost == self.evict.cost_of(sample@[j].key) by {
                    if j < pl {
                        assert(sample@.take(pl)[j] == sample@[j]);
                    }
                }
                assert forall|a: int, b: int| 0 <= a < b < sample@.len() implies sample@[a].key
                    != sample@[b].key by {
                    if b < pl {
                        assert(sample@.take(pl)[a] == sample@[a]);
                        assert(sample@.take(pl)[b] == sample@[b]);
                    }
                }
            }
            let slen = sample.len();
            proof {
                if slen == 0 {
                    let kc = self.evict.key_costs@;
                    if kc.len() > 0 {
                        assert(0 <= 0 < kc.len() && kc[0].key == kc[0].key);
                        assert(self.evict.has_key(kc[0].key));
                        assert(false);
                    }
                    assert(self.evict.used == 0);
                    assert(false);
                }
            }
            let mut min_key: u64 = 0;
            let mut min_hits: i64 = i64::MAX;
            let mut min_id: usize = 0;
            let mut min_cost: i64 = 0;
            let mut i: usize = 0;
            while i < slen
                invariant
                    self.wf(),
                    self.admitter == old(self).admitter,
                    i <= slen,
                    slen == sample@.len(),
                    1 <= slen,
                    i == 0 ==> min_hits == i64::MAX,
                    i > 0 ==> {
                        &&& min_id < i
                        &&& sample@[min_id as int].key == min_key
                        &&& sample@[min_id as int].cost == min_cost
                        &&& min_hits == tl_estimate(self.admitter@, min_key)
                        &&& forall|j: int|
                            0 <= j < i ==> tl_estimate(
                                self.admitter@,
                                (#[trigger] sample@[j]).key,
                            ) >= min_hits
                    },
                decreases slen - i,
            {
                let hits = self.admitter.estimate(sample[i].key);
                if hits < min_hits {
                    min_key = sample[i].key;
                    min_hits = hits;
                    min_id = i;
                    min_cost = sample[i].cost;
                }
                i = i + 1;
            }
            if inc_hits < min_hits {
                proof {
                    assert(self.evict.has_key(min_key));
                    assert forall|j: int| 0 <= j < sample@.len() implies self.evict.has_key(
                        (#[trigger] sample@[j]).key,
                    ) && tl_estimate(old(self).admitter@, sample@[j].key) > tl_estimate(
                        old(self).admitter@,
                        key,
                    ) by {}
                    assert(rejection_witness(sample@, self.evict, old(self).admitter@, key));
                }
                if self.track_metrics {
                    self.metrics.add(REJECT_SETS, key, 1);
                }
                proof {
                    assert(rejection_witness(sample@, self.evict, old(self).admitter@, key));
                }
                return (victims, false);
            }
            proof {
                lemma_idx_unique(sample@, min_key, min_id as int);
            }
            let ghost pre_evict = self.evict;
            self.evict.del(&min_key);
            let last = sample.len() - 1;
            let lp = sample[last];
            let ghost pre_sample = sample@;
            sample.set(min_id, lp);
            let _dropped = sample.pop();
            proof {
                let sn = sample@;
                assert(sn =~= pre_sample.update(min_id as int, lp).drop_last());
                assert forall|a: int, b: int| 0 <= a < b < sn.len() implies sn[a].key
                    != sn[b].key by {
                    if a != min_id {
                        assert(sn[a] == pre_sample[a]);
                    } else {
                        assert(sn[a] == pre_sample[last as int]);
                    }
                    if b != min_id {
                        assert(sn[b] == pre_sample[b]);
                    } else {
                        assert(sn[b] == pre_sample[last as int]);
                    }
                }
                assert forall|j: int| 0 <= j < sn.len() implies self.evict.has_key(
                    (#[trigger] sn[j]).key,
                ) && sn[j].cost == self.evict.cost_of(sn[j].key) by {
                    let j0 = if j == min_id { last as int } else { j };
                    assert(sn[j] == pre_sample[j0]);
                    assert(pre_sample[j0].key != min_key);
                }
            }
            proof {
                lemma_sum_push(victims@, PolicyPair { key: min_key, cost: min_cost });
                assert forall|j: int| 0 <= j < victims@.len() implies (#[trigger] victims@[j]).key
                    != min_key by {
                    assert(!pre_evict.has_key(victims@[j].key));
                }
            }
            let ghost vprev = victims@;
            victims.push(PolicyPair { key: min_key, cost: min_cost });
            proof {
                lemma_sum_nonneg(self.evict.key_costs@);
                assert forall|k2: u64| k2 != key && !lfu_contains(victims@, k2) implies (
                self.evict.has_key(k2) == e0.has_key(k2) && (e0.has_key(k2)
                    ==> self.evict.cost_of(k2) == e0.cost_of(k2))) by {
                    assert(victims@[vprev.len() as int].key == min_key);
                    assert(!lfu_contains(vprev, k2)) by {
                        if lfu_contains(vprev, k2) {
                            let j = lfu_idx(vprev, k2);
                            assert(victims@[j] == vprev[j]);
                        }
                    }
                    assert(k2 != min_key);
                }
            }
            room = self.evict.room_left(cost);
        }
        self.evict.add(key, cost);
        proof {
            lemma_sum_nonneg(victims@);
        }
        return (victims, true);
    }

    /// Whether the eviction state tracks `key`.
    pub fn has(&self, key: u64) -> (r: bool)
        requires
            self.wf(),
        ensures
            r == self.evict.has_key(key),
    {
        self.evict.get(&key).is_some()
    }

    /// Drops `key` from the eviction state.
    pub fn del(&mut self, key: &u64)
        requires
            old(self).wf(),
        ensures
            final(self).wf(),
            final(self).admitter@ == old(self).admitter@,
            final(self).evict.max_cost == old(self).evict.max_cost,
            !final(self).evict.has_key(*key),
            old(self).evict.has_key(*key) ==> final(self).evict.used == old(self).evict.used - old(self).evict.cost_of(*key),
            !old(self).evict.has_key(*key) ==> final(self).evict == old(self).evict,
            forall|k2: u64|
                k2 != *key ==> (final(self).evict.has_key(k2) == old(self).evict.has_key(k2) && (
                old(self).evict.has_key(k2) ==> final(self).evict.cost_of(k2) == old(self).evict.cost_of(k2))),
            final(self).track_metrics == old(self).track_metrics,
            final(self).metrics == old(self).metrics,
    {
        self.evict.del(key);
    }

    /// Re-costs `key` when it is tracked; an absent key is left alone.
    pub fn update(&mut self, key: u64, cost: i64)
        requires
            old(self).wf(),
            0 <= cost,
            old(self).evict.used + cost <= i64::MAX,
        ensures
            final(self).wf(),
            final(self).admitter@ == old(self).admitter@,
            final(self).evict.max_cost == old(self).evict.max_cost,
            old(self).evict.has_key(key) ==> final(self).evict.has_key(key) && final(self).evict.cost_of(key) == cost && final(self).evict.used == old(self).evict.used - old(self).evict.cost_of(key) + cost,
            !old(self).evict.has_key(key) ==> final(self).evict == old(self).evict,
            forall|k2: u64|
                k2 != key ==> (final(self).evict.has_key(k2) == old(self).evict.has_key(k2) && (
                old(self).evict.has_key(k2) ==> final(self).evict.cost_of(k2) == old(self).evict.cost_of(k2))),
            final(self).track_metrics == old(self).track_metrics,
            final(self).metrics@ == if old(self).evict.has_key(key) && old(self).track_metrics {
                bumped(old(self).metrics@, KEY_UPDATE as int, key, 1)
            } else {
                old(self).metrics@
            },
    {
        let updated = self.evict.update_if_has(key, cost);
        if updated && self.track_metrics {
            self.metrics.add(KEY_UPDATE, key, 1);
        }
    }

    /// The tracked cost of `key`, or -1 when it is absent.
    pub fn cost(&self, key: &u64) -> (r: i64)
        requires
            self.wf(),
        ensures
            self.evict.has_key(*key) ==> r == self.evict.cost_of(*key),
            !self.evict.has_key(*key) ==> r == -1,
    {
        match self.evict.get(key) {
            None => -1,
            Some(v) => v,
        }
    }

    /// The remaining room of the cost budget.
    pub fn cap(&self) -> (r: i64)
        requires
            self.wf(),
        ensures
            r == self.evict.max_cost - self.evict.used,
    {
        proof {
            lemma_sum_nonneg(self.evict.key_costs@);
        }
        self.evict.max_cost - self.evict.used
    }

    /// Zeroes the estimator and forgets every tracked key.
    pub fn clear(&mut self)
        requires
            old(self).wf(),
        ensures
            final(self).wf(),
            final(self).admitter@ == tl_reset(old(self).admitter@),
            final(self).evict.max_cost == old(self).evict.max_cost,
            final(self).evict.used == 0,
            final(self).evict.key_count() == 0,
            forall|k: u64| !final(self).evict.has_key(k),
            final(self).track_metrics == old(self).track_metrics,
            final(self).metrics == old(self).metrics,
    {
        self.admitter.clear();
        self.evict.clear();
    }
}

} // verus!
