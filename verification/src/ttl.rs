//! Expiration index: expiring keys are grouped into fixed-width time
//! buckets, each mapping a key to its conflict hash, so that a periodic
//! cleanup can return and drop every bucket that lies in the past.

use vstd::prelude::*;

verus! {

/// Width of one expiration bucket, in milliseconds.
pub const BUCKET_DURATION_MS: u64 = 5000;

/// The bucket an absolute time in milliseconds falls into.
pub open spec fn bucket_of(t_ms: u64) -> u64 {
    t_ms / BUCKET_DURATION_MS
}

/// One time bucket: every key expiring inside this bucket's window, each
/// with its conflict hash.
pub struct Bucket {
    pub bucket_id: u64,
    pub pairs: Vec<(u64, u64)>,
}

/// The expiration index.
pub struct ExpirationMap {
    pub buckets: Vec<Bucket>,
}

pub open spec fn bkt_has(pairs: Seq<(u64, u64)>, key: u64) -> bool {
    exists|j: int| 0 <= j < pairs.len() && pairs[j].0 == key
}

pub open spec fn bkt_conflict(pairs: Seq<(u64, u64)>, key: u64) -> u64 {
    let j = choose|j: int| 0 <= j < pairs.len() && pairs[j].0 == key;
    pairs[j].1
}

impl ExpirationMap {
    pub open spec fn wf(&self) -> bool {
        &&& forall|i: int, i2: int|
            0 <= i < i2 < self.buckets@.len() ==> (#[trigger] self.buckets@[i]).bucket_id != (
            #[trigger] self.buckets@[i2]).bucket_id
        &&& forall|i: int, j: int, j2: int|
            0 <= i < self.buckets@.len() && 0 <= j < j2 < self.buckets@[i].pairs@.len() ==> (
            #[trigger] self.buckets@[i].pairs@[j]).0 != (#[trigger] self.buckets@[i].pairs@[j2]).0
    }

    /// Whether bucket `b` holds `key`.
    pub open spec fn has_pair(&self, b: u64, key: u64) -> bool {
        exists|i: int|
            0 <= i < self.buckets@.len() && (#[trigger] self.buckets@[i]).bucket_id == b && bkt_has(
                self.buckets@[i].pairs@,
                key,
            )
    }

    /// The conflict hash bucket `b` holds for `key`.
    pub open spec fn pair_conflict(&self, b: u64, key: u64) -> u64 {
        let i = choose|i: int|
            0 <= i < self.buckets@.len() && (#[trigger] self.buckets@[i]).bucket_id == b && bkt_has(
                self.buckets@[i].pairs@,
                key,
            );
        bkt_conflict(self.buckets@[i].pairs@, key)
    }

    pub fn new() -> (m: ExpirationMap)
        ensures
            m.wf(),
            forall|b: u64, k: u64| !m.has_pair(b, k),
    {
        ExpirationMap { buckets: Vec::new() }
    }

    /// The bucket a time falls into.
    pub fn storage_bucket(&self, t_ms: u64) -> (b: u64)
        ensures
            b == bucket_of(t_ms),
    {
        t_ms / BUCKET_DURATION_MS
    }

    /// Records that `key` (under `conflict`) expires at `expiration`.
    pub fn add(&mut self, key: u64, conflict: u64, expiration: u64)
        requires
            old(self).wf(),
        ensures
            final(self).wf(),
            final(self).has_pair(bucket_of(expiration), key),
            final(self).pair_conflict(bucket_of(expiration), key) == conflict,
            forall|b2: u64, k2: u64|
                !(b2 == bucket_of(expiration) && k2 == key) ==> (final(self).has_pair(b2, k2)
                    == old(self).has_pair(b2, k2) && (old(self).has_pair(b2, k2) ==> final(self).pair_conflict(b2, k2) == old(self).pair_conflict(b2, k2))),
    {
        let b = expiration / BUCKET_DURATION_MS;
        let n = self.buckets.len();
        let mut i: usize = 0;
        while i < n
            invariant
                *self == *old(self),
                self.wf(),
                b == bucket_of(expiration),
                i <= n,
                n == self.buckets@.len(),
                forall|i2: int| 0 <= i2 < i ==> (#[trigger] self.buckets@[i2]).bucket_id != b,
            decreases n - i,
        {
            if self.buckets[i].bucket_id == b {
                self.put_pair(i, key, conflict);
                return ;
            }
            i = i + 1;
        }
        let mut pairs: Vec<(u64, u64)> = Vec::new();
        pairs.push((key, conflict));
        let ghost pre = self.buckets@;
        self.buckets.push(Bucket { bucket_id: b, pairs });
        proof {
            let s = self.buckets@;
            let last = pre.len() as int;
            assert forall|i2: int, i3: int| 0 <= i2 < i3 < s.len() implies (
            #[trigger] s[i2]).bucket_id != (#[trigger] s[i3]).bucket_id by {
                if i3 < last {
                    assert(s[i2] == pre[i2] && s[i3] == pre[i3]);
                } else {
                    assert(s[i2] == pre[i2]);
                }
            }
            assert(s[last].bucket_id == b && s[last].pairs@[0].0 == key);
            assert(bkt_has(s[last].pairs@, key));
            assert(self.has_pair(b, key));
            self.lemma_pair_lookup(b, key, last, 0);
            assert forall|b2: u64, k2: u64| !(b2 == b && k2 == key) implies (self.has_pair(b2, k2)
                == old(self).has_pair(b2, k2) && (old(self).has_pair(b2, k2)
                ==> self.pair_conflict(b2, k2) == old(self).pair_conflict(b2, k2))) by {
                if old(self).has_pair(b2, k2) {
                    let i2 = choose|i2: int|
                        0 <= i2 < pre.len() && (#[trigger] pre[i2]).bucket_id == b2 && bkt_has(
                            pre[i2].pairs@,
                            k2,
                        );
                    assert(s[i2] == pre[i2]);
                    let j2 = choose|j2: int|
                        0 <= j2 < pre[i2].pairs@.len() && pre[i2].pairs@[j2].0 == k2;
                    self.lemma_pair_lookup(b2, k2, i2, j2);
                    old(self).lemma_pair_lookup(b2, k2, i2, j2);
                } else {
                    if self.has_pair(b2, k2) {
                        let i2 = choose|i2: int|
                            0 <= i2 < s.len() && (#[trigger] s[i2]).bucket_id == b2 && bkt_has(
                                s[i2].pairs@,
                                k2,
                            );
                        if i2 < last {
                            assert(s[i2] == pre[i2]);
                        } else {
                            assert(s[i2].pairs@.len() == 1 && s[i2].pairs@[0].0 == key);
                        }
                    }
                }
            }
        }
    }

    /// With distinct bucket ids and pair keys, a located pair is the one
    /// that lookup finds.
    proof fn lemma_pair_lookup(&self, b: u64, key: u64, i: int, j: int)
        requires
            self.wf(),
            0 <= i < self.buckets@.len(),
            self.buckets@[i].bucket_id == b,
            0 <= j < self.buckets@[i].pairs@.len(),
            self.buckets@[i].pairs@[j].0 == key,
        ensures
            self.has_pair(b, key),
            self.pair_conflict(b, key) == self.buckets@[i].pairs@[j].1,
    {
        assert(bkt_has(self.buckets@[i].pairs@, key));
        let i2 = choose|i2: int|
            0 <= i2 < self.buckets@.len() && (#[trigger] self.buckets@[i2]).bucket_id == b
                && bkt_has(self.buckets@[i2].pairs@, key);
        assert(i2 == i);
        let j2 = choose|j2: int|
            0 <= j2 < self.buckets@[i].pairs@.len() && self.buckets@[i].pairs@[j2].0 == key;
        assert(j2 == j);
    }

    /// Inserts or overwrites `key -> conflict` inside bucket `i`.
    fn put_pair(&mut self, i: usize, key: u64, conflict: u64)
        requires
            old(self).wf(),
            i < old(self).buckets@.len(),
        ensures
            final(self).wf(),
            final(self).buckets@.len() == old(self).buckets@.len(),
            forall|i2: int|
                0 <= i2 < old(self).buckets@.len() && i2 != i ==> final(self).buckets@[i2] == old(self).buckets@[i2],
            forall|i2: int|
                0 <= i2 < old(self).buckets@.len() ==> (#[trigger] final(self).buckets@[i2]).bucket_id
                    == old(self).buckets@[i2].bucket_id,
            final(self).has_pair(old(self).buckets@[i as int].bucket_id, key),
            final(self).pair_conflict(old(self).buckets@[i as int].bucket_id, key) == conflict,
            forall|b2: u64, k2: u64|
                !(b2 == old(self).buckets@[i as int].bucket_id && k2 == key) ==> (final(self).has_pair(b2, k2) == old(self).has_pair(b2, k2) && (old(self).has_pair(b2, k2)
                    ==> final(self).pair_conflict(b2, k2) == old(self).pair_conflict(b2, k2))),
    {
        let ghost b = old(self).buckets@[i as int].bucket_id;
        let mut bu = Bucket { bucket_id: 0, pairs: Vec::new() };
        self.buckets.set_and_swap(i, &mut bu);
        let bid = bu.bucket_id;
        let n = bu.pairs.len();
        let ghost pre_pairs = bu.pairs@;
        let mut j: usize = 0;
        let mut found = false;
        while j < n && !found
            invariant
                j <= n,
                n == pre_pairs.len(),
                found ==> j >= 1 && 0 <= j - 1 < pre_pairs.len() && bu.pairs@ == pre_pairs.update(
                    j - 1,
                    (key, conflict),
                ) && pre_pairs[j - 1].0 == key,
                !found ==> bu.pairs@ == pre_pairs && forall|j2: int|
                    0 <= j2 < j ==> pre_pairs[j2].0 != key,
            decreases n - j,
        {
            if bu.pairs[j].0 == key {
                bu.pairs.set(j, (key, conflict));
                found = true;
            }
            j = j + 1;
        }
        if !found {
            proof {
                assert(bu.pairs@ == pre_pairs);
            }
            bu.pairs.push((key, conflict));
        }
        let ghost new_pairs = bu.pairs@;
        let ghost widx: int = if found {
            j - 1
        } else {
            pre_pairs.len() as int
        };
        bu.bucket_id = bid;
        self.buckets.set_and_swap(i, &mut bu);
        proof {
            let s = self.buckets@;
            let s0 = old(self).buckets@;
            assert(s =~= s0.update(i as int, Bucket { bucket_id: b, pairs: s[i as int].pairs }));
            assert(s[i as int].bucket_id == b);
            assert(s[i as int].pairs@ == new_pairs);
            // the updated bucket keeps distinct keys
            assert forall|j2: int, j3: int| 0 <= j2 < j3 < new_pairs.len() implies new_pairs[j2].0
                != new_pairs[j3].0 by {
                if found {
                    if j2 != widx {
                        assert(new_pairs[j2] == pre_pairs[j2]);
                    }
                    if j3 != widx {
                        assert(new_pairs[j3] == pre_pairs[j3]);
                    }
                } else {
                    if j3 < widx {
                        assert(new_pairs[j2] == pre_pairs[j2] && new_pairs[j3] == pre_pairs[j3]);
                    } else {
                        assert(new_pairs[j2] == pre_pairs[j2]);
                    }
                }
            }
            assert(self.wf());
            assert(new_pairs[widx] == (key, conflict));
            self.lemma_pair_lookup(b, key, i as int, widx);
            assert forall|b2: u64, k2: u64| !(b2 == b && k2 == key) implies (self.has_pair(b2, k2)
                == old(self).has_pair(b2, k2) && (old(self).has_pair(b2, k2)
                ==> self.pair_conflict(b2, k2) == old(self).pair_conflict(b2, k2))) by {
                if b2 != b {
                    if old(self).has_pair(b2, k2) {
                        let i2 = choose|i2: int|
                            0 <= i2 < s0.len() && (#[trigger] s0[i2]).bucket_id == b2 && bkt_has(
                                s0[i2].pairs@,
                                k2,
                            );
                        assert(i2 != i);
                        assert(s[i2] == s0[i2]);
                        let j2 = choose|j2: int|
                            0 <= j2 < s0[i2].pairs@.len() && s0[i2].pairs@[j2].0 == k2;
                        self.lemma_pair_lookup(b2, k2, i2, j2);
                        old(self).lemma_pair_lookup(b2, k2, i2, j2);
                    } else {
                        if self.has_pair(b2, k2) {
                            let i2 = choose|i2: int|
                                0 <= i2 < s.len() && (#[trigger] s[i2]).bucket_id == b2 && bkt_has(
                                    s[i2].pairs@,
                                    k2,
                                );
                            assert(i2 != i);
                            assert(s[i2] == s0[i2]);
                        }
                    }
                } else {
                    // same bucket, another key: position-wise unchanged
                    if old(self).has_pair(b2, k2) {
                        let i2 = choose|i2: int|
                            0 <= i2 < s0.len() && (#[trigger] s0[i2]).bucket_id == b2 && bkt_has(
                                s0[i2].pairs@,
                                k2,
                            );
                        assert(i2 == i);
                        let j2 = choose|j2: int|
                            0 <= j2 < s0[i2].pairs@.len() && s0[i2].pairs@[j2].0 == k2;
                        assert(j2 != widx || !found);
                        if !found {
                            assert(new_pairs[j2] == pre_pairs[j2]);
                        } else {
                            assert(new_pairs[j2] == pre_pairs[j2]);
                        }
                        self.lemma_pair_lookup(b2, k2, i as int, j2);
                        old(self).lemma_pair_lookup(b2, k2, i as int, j2);
                    } else {
                        if self.has_pair(b2, k2) {
                            let i2 = choose|i2: int|
                                0 <= i2 < s.len() && (#[trigger] s[i2]).bucket_id == b2 && bkt_has(
                                    s[i2].pairs@,
                                    k2,
                                );
                            assert(i2 == i);
                            let j2 = choose|j2: int|
                                0 <= j2 < new_pairs.len() && new_pairs[j2].0 == k2;
                            assert(j2 != widx);
                            assert(new_pairs[j2] == pre_pairs[j2]);
                        }
                    }
                }
            }
        }
    }

    /// Forgets that `key` expires at `expiration`; other records stay.
    pub fn del(&mut self, key: &u64, expiration: u64)
        requires
            old(self).wf(),
        ensures
            final(self).wf(),
            !final(self).has_pair(bucket_of(expiration), *key),
            forall|b2: u64, k2: u64|
                !(b2 == bucket_of(expiration) && k2 == *key) ==> (final(self).has_pair(b2, k2)
                    == old(self).has_pair(b2, k2) && (old(self).has_pair(b2, k2) ==> final(self).pair_conflict(b2, k2) == old(self).pair_conflict(b2, k2))),
    {
        let b = expiration / BUCKET_DURATION_MS;
        let n = self.buckets.len();
        let mut i: usize = 0;
        while i < n
            invariant
                *self == *old(self),
                self.wf(),
                b == bucket_of(expiration),
                i <= n,
                n == self.buckets@.len(),
                forall|i2: int| 0 <= i2 < i ==> (#[trigger] self.buckets@[i2]).bucket_id != b,
            decreases n - i,
        {
            if self.buckets[i].bucket_id == b {
                self.drop_pair(i, key);
                return ;
            }
            i = i + 1;
        }
        proof {
            assert forall|k2: u64| !self.has_pair(b, k2) by {
                if self.has_pair(b, k2) {
                    let i2 = choose|i2: int|
                        0 <= i2 < self.buckets@.len() && (#[trigger] self.buckets@[i2]).bucket_id
                            == b && bkt_has(self.buckets@[i2].pairs@, k2);
                    assert(false);
                }
            }
        }
    }

    /// Removes `key` from bucket `i`, if it is there.
    fn drop_pair(&mut self, i: usize, key: &u64)
        requires
            old(self).wf(),
            i < old(self).buckets@.len(),
        ensures
            final(self).wf(),
            final(self).buckets@.len() == old(self).buckets@.len(),
            forall|i2: int|
                0 <= i2 < old(self).buckets@.len() && i2 != i ==> final(self).buckets@[i2] == old(self).buckets@[i2],
            forall|i2: int|
                0 <= i2 < old(self).buckets@.len() ==> (#[trigger] final(self).buckets@[i2]).bucket_id
                    == old(self).buckets@[i2].bucket_id,
            !final(self).has_pair(old(self).buckets@[i as int].bucket_id, *key),
            forall|b2: u64, k2: u64|
                !(b2 == old(self).buckets@[i as int].bucket_id && k2 == *key) ==> (final(self).has_pair(b2, k2) == old(self).has_pair(b2, k2) && (old(self).has_pair(b2, k2)
                    ==> final(self).pair_conflict(b2, k2) == old(self).pair_conflict(b2, k2))),
    {
        let ghost b = old(self).buckets@[i as int].bucket_id;
        let mut bu = Bucket { bucket_id: 0, pairs: Vec::new() };
        self.buckets.set_and_swap(i, &mut bu);
        let bid = bu.bucket_id;
        let n = bu.pairs.len();
        let ghost pre_pairs = bu.pairs@;
        let mut j: usize = 0;
        let ghost mut removed: int = -1;
        let mut jfound: usize = 0;
        let mut found = false;
        while j < n
            invariant
                j <= n,
                n == pre_pairs.len(),
                bu.pairs@ == pre_pairs,
                found ==> jfound < j && 0 <= jfound < pre_pairs.len() && pre_pairs[jfound as int].0
                    == *key,
                !found ==> forall|j2: int| 0 <= j2 < j ==> pre_pairs[j2].0 != *key,
            decreases n - j,
        {
            if bu.pairs[j].0 == *key {
                jfound = j;
                found = true;
            }
            j = j + 1;
        }
        if found {
            bu.pairs.remove(jfound);
        }
        let ghost new_pairs = bu.pairs@;
        bu.bucket_id = bid;
        self.buckets.set_and_swap(i, &mut bu);
        proof {
            let s = self.buckets@;
            let s0 = old(self).buckets@;
            let fi = jfound as int;
            assert(s =~= s0.update(i as int, Bucket { bucket_id: b, pairs: s[i as int].pairs }));
            assert(s[i as int].pairs@ == new_pairs);
            assert forall|j2: int, j3: int| 0 <= j2 < j3 < new_pairs.len() implies new_pairs[j2].0
                != new_pairs[j3].0 by {
                if found {
                    let a0 = if j2 < fi {
                        j2
                    } else {
                        j2 + 1
                    };
                    let b0 = if j3 < fi {
                        j3
                    } else {
                        j3 + 1
                    };
                    assert(new_pairs[j2] == pre_pairs[a0] && new_pairs[j3] == pre_pairs[b0]);
                }
            }
            assert(self.wf());
            assert(!self.has_pair(b, *key)) by {
                if self.has_pair(b, *key) {
                    let i2 = choose|i2: int|
                        0 <= i2 < s.len() && (#[trigger] s[i2]).bucket_id == b && bkt_has(
                            s[i2].pairs@,
                            *key,
                        );
                    assert(i2 == i);
                    let j2 = choose|j2: int| 0 <= j2 < new_pairs.len() && new_pairs[j2].0 == *key;
                    if found {
                        let j0 = if j2 < fi {
                            j2
                        } else {
                            j2 + 1
                        };
                        assert(new_pairs[j2] == pre_pairs[j0]);
                        assert(j0 != fi);
                    }
                }
            }
            assert forall|b2: u64, k2: u64| !(b2 == b && k2 == *key) implies (self.has_pair(b2, k2)
                == old(self).has_pair(b2, k2) && (old(self).has_pair(b2, k2)
                ==> self.pair_conflict(b2, k2) == old(self).pair_conflict(b2, k2))) by {
                if b2 != b {
                    if old(self).has_pair(b2, k2) {
                        let i2 = choose|i2: int|
                            0 <= i2 < s0.len() && (#[trigger] s0[i2]).bucket_id == b2 && bkt_has(
                                s0[i2].pairs@,
                                k2,
                            );
                        assert(i2 != i);
                        assert(s[i2] == s0[i2]);
                        let j2 = choose|j2: int|
                            0 <= j2 < s0[i2].pairs@.len() && s0[i2].pairs@[j2].0 == k2;
                        self.lemma_pair_lookup(b2, k2, i2, j2);
                        old(self).lemma_pair_lookup(b2, k2, i2, j2);
                    } else {
                        if self.has_pair(b2, k2) {
                            let i2 = choose|i2: int|
                                0 <= i2 < s.len() && (#[trigger] s[i2]).bucket_id == b2 && bkt_has(
                                    s[i2].pairs@,
                                    k2,
                                );
                            assert(i2 != i);
                            assert(s[i2] == s0[i2]);
                        }
                    }
                } else {
                    if old(self).has_pair(b2, k2) {
                        let j2 = choose|j2: int|
                            0 <= j2 < pre_pairs.len() && pre_pairs[j2].0 == k2;
                        old(self).lemma_pair_lookup(b2, k2, i as int, j2);
                        if found {
                            assert(j2 != fi);
                            let jn = if j2 < fi {
                                j2
                            } else {
                                j2 - 1
                            };
                            assert(new_pairs[jn] == pre_pairs[j2]);
                            self.lemma_pair_lookup(b2, k2, i as int, jn);
                        } else {
                            self.lemma_pair_lookup(b2, k2, i as int, j2);
                        }
                    } else {
                        if self.has_pair(b2, k2) {
                            let i2 = choose|i2: int|
                                0 <= i2 < s.len() && (#[trigger] s[i2]).bucket_id == b2 && bkt_has(
                                    s[i2].pairs@,
                                    k2,
                                );
                            assert(i2 == i);
                            let j2 = choose|j2: int|
                                0 <= j2 < new_pairs.len() && new_pairs[j2].0 == k2;
                            if found {
                                let j0 = if j2 < fi {
                                    j2
                                } else {
                                    j2 + 1
                                };
                                assert(new_pairs[j2] == pre_pairs[j0]);
                            }
                        }
                    }
                }
            }
        }
    }

    /// Moves the record of `key` from its old expiration bucket to the new
    /// one, updating its conflict hash.
    pub fn update(&mut self, key: u64, conflict: u64, old_exp_time: u64, new_exp_time: u64)
        requires
            old(self).wf(),
        ensures
            final(self).wf(),
            final(self).has_pair(bucket_of(new_exp_time), key),
            final(self).pair_conflict(bucket_of(new_exp_time), key) == conflict,
            bucket_of(old_exp_time) != bucket_of(new_exp_time) ==> !final(self).has_pair(
                bucket_of(old_exp_time),
                key,
            ),
            forall|b2: u64, k2: u64|
                k2 != key ==> (final(self).has_pair(b2, k2) == old(self).has_pair(b2, k2) && (old(self).has_pair(b2, k2) ==> final(self).pair_conflict(b2, k2) == old(self).pair_conflict(
                    b2,
                    k2,
                ))),
    {
        self.del(&key, old_exp_time);
        self.add(key, conflict, new_exp_time);
    }

    /// Removes every bucket lying strictly before the bucket of `now` and
    /// returns all of their `(key, conflict)` records.
    pub fn cleanup(&mut self, now: u64) -> (out: Vec<(u64, u64)>)
        requires
            old(self).wf(),
        ensures
            final(self).wf(),
            forall|b2: u64, k2: u64|
                b2 >= bucket_of(now) ==> (final(self).has_pair(b2, k2) == old(self).has_pair(
                    b2,
                    k2,
                ) && (old(self).has_pair(b2, k2) ==> final(self).pair_conflict(b2, k2) == old(self).pair_conflict(b2, k2))),
            forall|b2: u64, k2: u64| b2 < bucket_of(now) ==> !final(self).has_pair(b2, k2),
            forall|b2: u64, k2: u64|
                b2 < bucket_of(now) && old(self).has_pair(b2, k2) ==> in_out(
                    out@,
                    (k2, old(self).pair_conflict(b2, k2)),
                ),
            forall|j: int|
                #![trigger out@[j]]
                0 <= j < out@.len() ==> pair_sourced(*old(self), bucket_of(now), out@[j]),
    {
        let nb = now / BUCKET_DURATION_MS;
        let mut out: Vec<(u64, u64)> = Vec::new();
        let mut kept: Vec<Bucket> = Vec::new();
        let n = self.buckets.len();
        let mut i: usize = 0;
        while i < n
            invariant
                *self == *old(self),
                self.wf(),
                nb == bucket_of(now),
                i <= n,
                n == self.buckets@.len(),
                kept_matches(self.buckets@, kept@, i as int, nb),
                pairs_covered(self.buckets@, out@, i as int, nb),
                out_sound(self.buckets@, out@, i as int, nb),
            decreases n - i,
        {
            if self.buckets[i].bucket_id < nb {
                let ghost pre_out = out@;
                let mut pairs = self.clone_pairs(i);
                out.append(&mut pairs);
                proof {
                    assert(out@ == pre_out + self.buckets@[i as int].pairs@);
                    lemma_covered_step_expired(self.buckets@, pre_out, out@, i as int, nb);
                    lemma_sound_step_expired(self.buckets@, pre_out, out@, i as int, nb);
                    lemma_kept_step_expired(self.buckets@, kept@, i as int, nb);
                }
            } else {
                let ghost pre_kept = kept@;
                let bu = Bucket { bucket_id: self.buckets[i].bucket_id, pairs: self.clone_pairs(i) };
                kept.push(bu);
                proof {
                    lemma_kept_step_kept(self.buckets@, pre_kept, kept@, i as int, nb);
                    lemma_covered_step_kept(self.buckets@, out@, i as int, nb);
                    lemma_sound_step_kept(self.buckets@, out@, i as int, nb);
                }
            }
            i = i + 1;
        }
        let ghost s0 = self.buckets@;
        self.buckets = kept;
        proof {
            let s = self.buckets@;
            assert forall|i2: int, i3: int| 0 <= i2 < i3 < s.len() implies (
            #[trigger] s[i2]).bucket_id != (#[trigger] s[i3]).bucket_id by {}
            assert(self.wf()) by {
                assert forall|i2: int, j: int, j2: int|
                    0 <= i2 < s.len() && 0 <= j < j2 < s[i2].pairs@.len() implies (#[trigger] s[
                    i2].pairs@[j]).0 != (#[trigger] s[i2].pairs@[j2]).0 by {
                    let w2 = choose|w2: int|
                        0 <= w2 < n && (#[trigger] s[i2]).bucket_id == s0[w2].bucket_id && s[
                        i2].pairs@ == s0[w2].pairs@;
                }
            }
            assert forall|b2: u64, k2: u64| b2 >= nb implies (self.has_pair(b2, k2) == old(self).has_pair(b2, k2) && (old(self).has_pair(b2, k2) ==> self.pair_conflict(b2, k2) == old(self).pair_conflict(b2, k2))) by {
                if old(self).has_pair(b2, k2) {
                    let i2 = choose|i2: int|
                        0 <= i2 < s0.len() && (#[trigger] s0[i2]).bucket_id == b2 && bkt_has(
                            s0[i2].pairs@,
                            k2,
                        );
                    let i3 = choose|i3: int|
                        0 <= i3 < s.len() && (#[trigger] s[i3]).bucket_id == s0[i2].bucket_id && s[
                        i3].pairs@ == s0[i2].pairs@;
                    let j2 = choose|j2: int|
                        0 <= j2 < s0[i2].pairs@.len() && s0[i2].pairs@[j2].0 == k2;
                    self.lemma_pair_lookup(b2, k2, i3, j2);
                    old(self).lemma_pair_lookup(b2, k2, i2, j2);
                } else {
                    if self.has_pair(b2, k2) {
                        let i2 = choose|i2: int|
                            0 <= i2 < s.len() && (#[trigger] s[i2]).bucket_id == b2 && bkt_has(
                                s[i2].pairs@,
                                k2,
                            );
                        let w2 = choose|w2: int|
                            0 <= w2 < n && (#[trigger] s[i2]).bucket_id == s0[w2].bucket_id && s[
                            i2].pairs@ == s0[w2].pairs@;
                        let j2 = choose|j2: int|
                            0 <= j2 < s[i2].pairs@.len() && s[i2].pairs@[j2].0 == k2;
                        old(self).lemma_pair_lookup(b2, k2, w2, j2);
                    }
                }
            }
            assert forall|b2: u64, k2: u64| b2 < nb implies !self.has_pair(b2, k2) by {
                if self.has_pair(b2, k2) {
                    let i2 = choose|i2: int|
                        0 <= i2 < s.len() && (#[trigger] s[i2]).bucket_id == b2 && bkt_has(
                            s[i2].pairs@,
                            k2,
                        );
                }
            }
            assert forall|j: int| #![trigger out@[j]] 0 <= j < out@.len() implies pair_sourced(
                *old(self),
                bucket_of(now),
                out@[j],
            ) by {
                let (wi, wj) = choose|wi: int, wj: int|
                    0 <= wi < n && s0[wi].bucket_id < nb && 0 <= wj < s0[wi].pairs@.len() && (
                    #[trigger] s0[wi].pairs@[wj]) == out@[j];
                old(self).lemma_pair_lookup(s0[wi].bucket_id, out@[j].0, wi, wj);
                assert(old(self).has_pair(s0[wi].bucket_id, out@[j].0));
            }
            assert forall|b2: u64, k2: u64|
                b2 < bucket_of(now) && old(self).has_pair(b2, k2) implies in_out(
                out@,
                (k2, old(self).pair_conflict(b2, k2)),
            ) by {
                let i2 = choose|i2: int|
                    0 <= i2 < s0.len() && (#[trigger] s0[i2]).bucket_id == b2 && bkt_has(
                        s0[i2].pairs@,
                        k2,
                    );
                let j2 = choose|j2: int| 0 <= j2 < s0[i2].pairs@.len() && s0[i2].pairs@[j2].0 == k2;
                old(self).lemma_pair_lookup(b2, k2, i2, j2);
                assert(s0[i2].pairs@[j2] == (k2, old(self).pair_conflict(b2, k2)));
            }
        }
        out
    }

    /// Copies the pairs of bucket `i`.
    fn clone_pairs(&self, i: usize) -> (out: Vec<(u64, u64)>)
        requires
            i < self.buckets@.len(),
        ensures
            out@ == self.buckets@[i as int].pairs@,
    {
        let m = self.buckets[i].pairs.len();
        let mut out: Vec<(u64, u64)> = Vec::new();
        let mut j: usize = 0;
        while j < m
            invariant
                i < self.buckets@.len(),
                j <= m,
                m == self.buckets@[i as int].pairs@.len(),
                out@ == self.buckets@[i as int].pairs@.take(j as int),
            decreases m - j,
        {
            out.push(self.buckets[i].pairs[j]);
            proof {
                assert(self.buckets@[i as int].pairs@.take(j as int + 1) =~= self.buckets@[
                    i as int].pairs@.take(j as int).push(self.buckets@[i as int].pairs@[j as int]));
            }
            j = j + 1;
        }
        proof {
            assert(self.buckets@[i as int].pairs@.take(m as int) =~= self.buckets@[i as int].pairs@);
        }
        out
    }
}

/// Whether `p` occurs in `out`.
pub open spec fn in_out(out: Seq<(u64, u64)>, p: (u64, u64)) -> bool {
    exists|j: int| 0 <= j < out.len() && (#[trigger] out[j]) == p
}

/// Whether the index holds `p`'s key, under `p`'s conflict hash, in some
/// bucket before `nb`.
pub open spec fn pair_sourced(m: ExpirationMap, nb: u64, p: (u64, u64)) -> bool {
    exists|b2: u64|
        #![trigger m.has_pair(b2, p.0)]
        b2 < nb && m.has_pair(b2, p.0) && m.pair_conflict(b2, p.0) == p.1
}

/// Whether `p` stands in one of the first `upto` buckets under an id before
/// `nb`.
pub open spec fn from_past_bucket(buckets: Seq<Bucket>, upto: int, nb: u64, p: (u64, u64)) -> bool {
    exists|i: int, j: int|
        0 <= i < upto && buckets[i].bucket_id < nb && 0 <= j < buckets[i].pairs@.len() && (
        #[trigger] buckets[i].pairs@[j]) == p
}

/// Every returned pair stands in a scanned past bucket.
pub open spec fn out_sound(buckets: Seq<Bucket>, out: Seq<(u64, u64)>, upto: int, nb: u64) -> bool {
    forall|j: int|
        #![trigger out[j]]
        0 <= j < out.len() ==> from_past_bucket(buckets, upto, nb, out[j])
}

proof fn lemma_sound_step_expired(
    buckets: Seq<Bucket>,
    pre_out: Seq<(u64, u64)>,
    out: Seq<(u64, u64)>,
    i: int,
    nb: u64,
)
    requires
        0 <= i < buckets.len(),
        buckets[i].bucket_id < nb,
        out == pre_out + buckets[i].pairs@,
        out_sound(buckets, pre_out, i, nb),
    ensures
        out_sound(buckets, out, i + 1, nb),
{
    assert forall|j: int|
        #![trigger out[j]]
        0 <= j < out.len() implies from_past_bucket(buckets, i + 1, nb, out[j]) by {
        if j < pre_out.len() {
            assert(out[j] == pre_out[j]);
            let (wi, wj) = choose|wi: int, wj: int|
                0 <= wi < i && buckets[wi].bucket_id < nb && 0 <= wj < buckets[wi].pairs@.len()
                    && (#[trigger] buckets[wi].pairs@[wj]) == pre_out[j];
            assert(from_past_bucket(buckets, i + 1, nb, out[j]));
        } else {
            assert(out[j] == buckets[i].pairs@[j - pre_out.len()]);
        }
    }
}

proof fn lemma_sound_step_kept(buckets: Seq<Bucket>, out: Seq<(u64, u64)>, i: int, nb: u64)
    requires
        0 <= i < buckets.len(),
        out_sound(buckets, out, i, nb),
    ensures
        out_sound(buckets, out, i + 1, nb),
{
    assert forall|j: int|
        #![trigger out[j]]
        0 <= j < out.len() implies from_past_bucket(buckets, i + 1, nb, out[j]) by {
        let (wi, wj) = choose|wi: int, wj: int|
            0 <= wi < i && buckets[wi].bucket_id < nb && 0 <= wj < buckets[wi].pairs@.len() && (
            #[trigger] buckets[wi].pairs@[wj]) == out[j];
        assert(from_past_bucket(buckets, i + 1, nb, out[j]));
    }
}

/// Every pair of a bucket before `upto` whose id lies before `nb` appears in
/// `out`.
pub open spec fn pairs_covered(buckets: Seq<Bucket>, out: Seq<(u64, u64)>, upto: int, nb: u64) -> bool {
    forall|i2: int, j2: int|
        #![trigger buckets[i2].pairs@[j2]]
        0 <= i2 < upto && buckets[i2].bucket_id < nb && 0 <= j2 < buckets[i2].pairs@.len()
            ==> in_out(out, buckets[i2].pairs@[j2])
}

/// `kept` holds exactly the buckets before `upto` whose ids lie at or past
/// `nb`, as faithful copies with distinct ids.
pub open spec fn kept_matches(buckets: Seq<Bucket>, kept: Seq<Bucket>, upto: int, nb: u64) -> bool {
    &&& forall|i2: int| 0 <= i2 < kept.len() ==> (#[trigger] kept[i2]).bucket_id >= nb
    &&& forall|i2: int, i3: int|
        0 <= i2 < i3 < kept.len() ==> (#[trigger] kept[i2]).bucket_id != (
        #[trigger] kept[i3]).bucket_id
    &&& forall|i2: int|
        0 <= i2 < kept.len() ==> exists|i3: int|
            0 <= i3 < upto && (#[trigger] kept[i2]).bucket_id == buckets[i3].bucket_id && kept[
                i2].pairs@ == buckets[i3].pairs@
    &&& forall|i2: int|
        0 <= i2 < upto && (#[trigger] buckets[i2]).bucket_id >= nb ==> exists|i3: int|
            0 <= i3 < kept.len() && (#[trigger] kept[i3]).bucket_id == buckets[i2].bucket_id
                && kept[i3].pairs@ == buckets[i2].pairs@
}

proof fn lemma_covered_step_expired(
    buckets: Seq<Bucket>,
    pre_out: Seq<(u64, u64)>,
    out: Seq<(u64, u64)>,
    i: int,
    nb: u64,
)
    requires
        0 <= i < buckets.len(),
        buckets[i].bucket_id < nb,
        out == pre_out + buckets[i].pairs@,
        pairs_covered(buckets, pre_out, i, nb),
    ensures
        pairs_covered(buckets, out, i + 1, nb),
{
    assert forall|i2: int, j2: int|
        #![trigger buckets[i2].pairs@[j2]]
        0 <= i2 < i + 1 && buckets[i2].bucket_id < nb && 0 <= j2
            < buckets[i2].pairs@.len() implies in_out(out, buckets[i2].pairs@[j2]) by {
        if i2 < i {
            let wj = choose|wj: int|
                0 <= wj < pre_out.len() && (#[trigger] pre_out[wj]) == buckets[i2].pairs@[j2];
            assert(out[wj] == pre_out[wj]);
        } else {
            assert(out[pre_out.len() + j2] == buckets[i2].pairs@[j2]);
        }
    }
}

proof fn lemma_covered_step_kept(buckets: Seq<Bucket>, out: Seq<(u64, u64)>, i: int, nb: u64)
    requires
        0 <= i < buckets.len(),
        buckets[i].bucket_id >= nb,
        pairs_covered(buckets, out, i, nb),
    ensures
        pairs_covered(buckets, out, i + 1, nb),
{
    assert forall|i2: int, j2: int|
        #![trigger buckets[i2].pairs@[j2]]
        0 <= i2 < i + 1 && buckets[i2].bucket_id < nb && 0 <= j2
            < buckets[i2].pairs@.len() implies in_out(out, buckets[i2].pairs@[j2]) by {
        assert(0 <= i2 < i);
    }
}

proof fn lemma_kept_step_expired(buckets: Seq<Bucket>, kept: Seq<Bucket>, i: int, nb: u64)
    requires
        0 <= i < buckets.len(),
        buckets[i].bucket_id < nb,
        kept_matches(buckets, kept, i, nb),
    ensures
        kept_matches(buckets, kept, i + 1, nb),
{
    assert forall|i2: int| 0 <= i2 < kept.len() implies exists|i3: int|
        0 <= i3 < i + 1 && (#[trigger] kept[i2]).bucket_id == buckets[i3].bucket_id && kept[
        i2].pairs@ == buckets[i3].pairs@ by {
        let wi = choose|wi: int|
            0 <= wi < i && (#[trigger] kept[i2]).bucket_id == buckets[wi].bucket_id && kept[
            i2].pairs@ == buckets[wi].pairs@;
        assert(0 <= wi < i + 1);
    }
}

proof fn lemma_kept_step_kept(
    buckets: Seq<Bucket>,
    pre_kept: Seq<Bucket>,
    kept: Seq<Bucket>,
    i: int,
    nb: u64,
)
    requires
        0 <= i < buckets.len(),
        buckets[i].bucket_id >= nb,
        kept == pre_kept.push(
            Bucket { bucket_id: buckets[i].bucket_id, pairs: kept.last().pairs },
        ),
        kept.last().pairs@ == buckets[i].pairs@,
        kept.last().bucket_id == buckets[i].bucket_id,
        kept_matches(buckets, pre_kept, i, nb),
        forall|a: int, b: int|
            0 <= a < b < buckets.len() ==> (#[trigger] buckets[a]).bucket_id != (
            #[trigger] buckets[b]).bucket_id,
    ensures
        kept_matches(buckets, kept, i + 1, nb),
{
    let last = pre_kept.len() as int;
    assert forall|i2: int|
        0 <= i2 < i + 1 && (#[trigger] buckets[i2]).bucket_id >= nb implies exists|i3: int|
        0 <= i3 < kept.len() && (#[trigger] kept[i3]).bucket_id == buckets[i2].bucket_id && kept[
        i3].pairs@ == buckets[i2].pairs@ by {
        if i2 < i {
            let wi = choose|wi: int|
                0 <= wi < pre_kept.len() && (#[trigger] pre_kept[wi]).bucket_id == buckets[
                i2].bucket_id && pre_kept[wi].pairs@ == buckets[i2].pairs@;
            assert(kept[wi] == pre_kept[wi]);
        } else {
            assert(kept[last].bucket_id == buckets[i2].bucket_id);
        }
    }
    assert forall|i2: int| 0 <= i2 < kept.len() implies exists|i3: int|
        0 <= i3 < i + 1 && (#[trigger] kept[i2]).bucket_id == buckets[i3].bucket_id && kept[
        i2].pairs@ == buckets[i3].pairs@ by {
        if i2 < last {
            assert(kept[i2] == pre_kept[i2]);
            let wi = choose|wi: int|
                0 <= wi < i && (#[trigger] pre_kept[i2]).bucket_id == buckets[wi].bucket_id
                    && pre_kept[i2].pairs@ == buckets[wi].pairs@;
            assert(kept[i2].bucket_id == buckets[wi].bucket_id);
        } else {
            assert(kept[i2].bucket_id == buckets[i as int].bucket_id);
        }
    }
    assert forall|i2: int, i3: int| 0 <= i2 < i3 < kept.len() implies (
    #[trigger] kept[i2]).bucket_id != (#[trigger] kept[i3]).bucket_id by {
        if i3 == last {
            assert(kept[i2] == pre_kept[i2]);
            let wi = choose|wi: int|
                0 <= wi < i && (#[trigger] pre_kept[i2]).bucket_id == buckets[wi].bucket_id
                    && pre_kept[i2].pairs@ == buckets[wi].pairs@;
            assert(buckets[wi].bucket_id != buckets[i as int].bucket_id);
        } else {
            assert(kept[i2] == pre_kept[i2] && kept[i3] == pre_kept[i3]);
        }
    }
}

} // verus!
