//! Sharded store: 256 striped maps from the primary key hash to the stored
//! entry. A lookup checks the conflict hash and, lazily, the expiry; writes
//! keep the expiration index in step.

use vstd::prelude::*;
use crate::cache::NUM_SHARDS;
use crate::policy::DefaultPolicy;
use crate::ttl::{ExpirationMap, bucket_of};

verus! {

/// One stored entry: the hashed key pair, the value, and an optional
/// absolute expiry in milliseconds (none means the entry never expires).
pub struct Node<V> {
    pub key: u64,
    pub conflict: u64,
    pub value: V,
    pub expiration: Option<u64>,
}

impl<V> Node<V> {
    pub fn new(key: u64, conflict: u64, value: V, expiration: Option<u64>) -> (n: Node<V>)
        ensures
            n.key == key,
            n.conflict == conflict,
            n.value == value,
            n.expiration == expiration,
    {
        Node { key, conflict, value, expiration }
    }
}

pub open spec fn shard_of(key: u64) -> int {
    (key % 256) as int
}

pub open spec fn shard_has<V>(s: Seq<Node<V>>, key: u64) -> bool {
    exists|i: int| 0 <= i < s.len() && (#[trigger] s[i]).key == key
}

pub open spec fn shard_node<V>(s: Seq<Node<V>>, key: u64) -> Node<V> {
    s[choose|i: int| 0 <= i < s.len() && (#[trigger] s[i]).key == key]
}

/// Conflict safety: a lookup under a non-zero conflict hash never answers a
/// value stored under a different conflict hash for the same key.
pub proof fn lemma_conflict_safety<V>(s: Store<V>, key: u64, conflict: u64, now: u64)
    requires
        s.wf(),
        conflict != 0,
    ensures
        s.get_spec(key, conflict, now) matches Some(v) ==> s.node_of(key).conflict == conflict
            && v == s.node_of(key).value,
{
}

/// Lazy expiry: a lookup strictly after the entry's expiration answers
/// nothing, whether or not any cleanup has run.
pub proof fn lemma_lazy_expiry<V>(s: Store<V>, key: u64, conflict: u64, now: u64)
    requires
        s.wf(),
        s.has_key(key),
        s.node_of(key).expiration matches Some(e) && now > e,
    ensures
        s.get_spec(key, conflict, now) is None,
{
}

/// The sharded store.
pub struct Store<V> {
    pub data: Vec<Vec<Node<V>>>,
    pub em: ExpirationMap,
}

impl<V> Store<V> {
    /// The shard structure alone: 256 shards, every entry in the shard its
    /// key selects, and no key twice in a shard.
    pub open spec fn shards_ok(&self) -> bool {
        &&& self.data@.len() == NUM_SHARDS
        &&& forall|s: int, i: int|
            0 <= s < NUM_SHARDS && 0 <= i < self.data@[s]@.len() ==> shard_of(
                (#[trigger] self.data@[s]@[i]).key,
            ) == s
        &&& forall|s: int, i: int, j: int|
            0 <= s < NUM_SHARDS && 0 <= i < j < self.data@[s]@.len() ==> (
            #[trigger] self.data@[s]@[i]).key != (#[trigger] self.data@[s]@[j]).key
    }

    pub open spec fn wf(&self) -> bool {
        &&& self.shards_ok()
        &&& self.em.wf()
        &&& self.em_linked()
    }

    /// Every resident expiring entry is recorded in the expiration index
    /// under its expiration bucket, with its own conflict hash.
    pub open spec fn em_linked(&self) -> bool {
        forall|k: u64| #![trigger self.has_key(k)]
            self.has_key(k) ==> (self.node_of(k).expiration matches Some(e)
                ==> self.em.has_pair(bucket_of(e), k) && self.em.pair_conflict(bucket_of(e), k)
                == self.node_of(k).conflict)
    }

    /// Whether any entry is stored under `key`.
    pub open spec fn has_key(&self, key: u64) -> bool {
        shard_has(self.data@[shard_of(key)]@, key)
    }

    /// The entry stored under `key`.
    pub open spec fn node_of(&self, key: u64) -> Node<V> {
        shard_node(self.data@[shard_of(key)]@, key)
    }

    /// What a lookup must answer: the stored value, unless the key is
    /// absent, the non-zero conflict hash differs, or the entry has expired.
    pub open spec fn get_spec(&self, key: u64, conflict: u64, now: u64) -> Option<V> {
        if !self.has_key(key) {
            None
        } else if conflict != 0 && conflict != self.node_of(key).conflict {
            None
        } else if self.node_of(key).expiration matches Some(e) && now > e {
            None
        } else {
            Some(self.node_of(key).value)
        }
    }

    pub fn new() -> (s: Store<V>)
        ensures
            s.wf(),
            forall|k: u64| !s.has_key(k),
            forall|b: u64, k: u64| !s.em.has_pair(b, k),
    {
        let mut data: Vec<Vec<Node<V>>> = Vec::new();
        let mut i: usize = 0;
        while i < NUM_SHARDS
            invariant
                data@.len() == i,
                i <= NUM_SHARDS,
                forall|s2: int| 0 <= s2 < i ==> (#[trigger] data@[s2])@.len() == 0,
            decreases NUM_SHARDS - i,
        {
            data.push(Vec::new());
            i = i + 1;
        }
        Store { data, em: ExpirationMap::new() }
    }

    pub fn bini(&self, hash: u64) -> (s: usize)
        ensures
            s == shard_of(hash),
    {
        (hash % (NUM_SHARDS as u64)) as usize
    }

    proof fn lemma_node_lookup(&self, key: u64, i: int)
        requires
            self.shards_ok(),
            0 <= i < self.data@[shard_of(key)]@.len(),
            self.data@[shard_of(key)]@[i].key == key,
        ensures
            self.has_key(key),
            self.node_of(key) == self.data@[shard_of(key)]@[i],
    {
        let s = self.data@[shard_of(key)]@;
        let j = choose|j: int| 0 <= j < s.len() && (#[trigger] s[j]).key == key;
        assert(j == i);
    }

    /// Looks `key_hash` up, checking the conflict hash and (against `now`,
    /// in milliseconds) the lazy expiry.
    pub fn get(&self, key_hash: u64, conflict: u64, now: u64) -> (r: Option<&V>)
        requires
            self.wf(),
        ensures
            r is Some <==> self.get_spec(key_hash, conflict, now) is Some,
            r matches Some(v) ==> self.get_spec(key_hash, conflict, now) == Some(*v),
    {
        let s = self.bini(key_hash);
        let n = self.data[s].len();
        let mut i: usize = 0;
        while i < n
            invariant
                self.wf(),
                s == shard_of(key_hash),
                i <= n,
                n == self.data@[s as int]@.len(),
                forall|j: int| 0 <= j < i ==> (#[trigger] self.data@[s as int]@[j]).key != key_hash,
            decreases n - i,
        {
            if self.data[s][i].key == key_hash {
                proof {
                    self.lemma_node_lookup(key_hash, i as int);
                }
                let node = &self.data[s][i];
                if conflict != 0 && conflict != node.conflict {
                    return None;
                }
                match node.expiration {
                    Some(e) => {
                        if now > e {
                            return None;
                        }
                    },
                    None => {},
                }
                return Some(&node.value);
            }
            i = i + 1;
        }
        None
    }

    /// The expiry recorded for `key`, if the key is resident and expiring.
    pub fn expiration(&self, key: &u64) -> (r: Option<u64>)
        requires
            self.shards_ok(),
        ensures
            self.has_key(*key) ==> r == self.node_of(*key).expiration,
            !self.has_key(*key) ==> r is None,
    {
        let s = self.bini(*key);
        let n = self.data[s].len();
        let mut i: usize = 0;
        while i < n
            invariant
                self.shards_ok(),
                s == shard_of(*key),
                i <= n,
                n == self.data@[s as int]@.len(),
                forall|j: int| 0 <= j < i ==> (#[trigger] self.data@[s as int]@[j]).key != *key,
            decreases n - i,
        {
            if self.data[s][i].key == *key {
                proof {
                    self.lemma_node_lookup(*key, i as int);
                }
                return self.data[s][i].expiration;
            }
            i = i + 1;
        }
        None
    }

    /// Replaces the entry of shard `s` at index `i` by `item` and reindexes
    /// its expiry.
    fn replace_at(&mut self, s: usize, i: usize, item: Node<V>)
        requires
            old(self).wf(),
            s == shard_of(item.key),
            i < old(self).data@[s as int]@.len(),
            old(self).data@[s as int]@[i as int].key == item.key,
        ensures
            final(self).wf(),
            final(self).has_key(item.key),
            final(self).node_of(item.key) == item,
            forall|k2: u64|
                k2 != item.key ==> (final(self).has_key(k2) == old(self).has_key(k2) && (old(self).has_key(k2) ==> final(self).node_of(k2) == old(self).node_of(k2))),
            item.expiration matches Some(e) ==> final(self).em.has_pair(bucket_of(e), item.key)
                && final(self).em.pair_conflict(bucket_of(e), item.key) == item.conflict,
            old(self).data@[s as int]@[i as int].expiration matches Some(e0)
                ==> (final(self).em.has_pair(bucket_of(e0), item.key)
                ==> (item.expiration matches Some(e1) && bucket_of(e1) == bucket_of(e0))),
    {
        let ghost old_node = self.data@[s as int]@[i as int];
        match self.data[s][i].expiration {
            Some(old_e) => {
                self.em.del(&item.key, old_e);
            },
            None => {},
        }
        let ghost em_mid = self.em;
        match item.expiration {
            Some(new_e) => {
                self.em.add(item.key, item.conflict, new_e);
            },
            None => {},
        }
        let mut shard: Vec<Node<V>> = Vec::new();
        self.data.set_and_swap(s, &mut shard);
        shard.set(i, item);
        self.data.set_and_swap(s, &mut shard);
        proof {
            let sh = self.data@[s as int]@;
            let sh0 = old(self).data@[s as int]@;
            assert(sh =~= sh0.update(i as int, item));
            assert forall|s2: int, i2: int|
                0 <= s2 < NUM_SHARDS && 0 <= i2 < self.data@[s2]@.len() implies shard_of(
                (#[trigger] self.data@[s2]@[i2]).key,
            ) == s2 by {
                if s2 != s as int || i2 != i as int {
                    assert(self.data@[s2]@[i2] == old(self).data@[s2]@[i2]);
                }
            }
            assert forall|s2: int, i2: int, j2: int|
                0 <= s2 < NUM_SHARDS && 0 <= i2 < j2 < self.data@[s2]@.len() implies (
            #[trigger] self.data@[s2]@[i2]).key != (#[trigger] self.data@[s2]@[j2]).key by {
                if s2 == s as int {
                    if i2 != i as int {
                        assert(sh[i2] == sh0[i2]);
                    }
                    if j2 != i as int {
                        assert(sh[j2] == sh0[j2]);
                    }
                } else {
                    assert(self.data@[s2]@[i2] == old(self).data@[s2]@[i2]);
                    assert(self.data@[s2]@[j2] == old(self).data@[s2]@[j2]);
                }
            }
            self.lemma_node_lookup(item.key, i as int);
            assert forall|k2: u64| k2 != item.key implies (self.has_key(k2) == old(self).has_key(
                k2,
            ) && (old(self).has_key(k2) ==> self.node_of(k2) == old(self).node_of(k2))) by {
                if shard_of(k2) != s as int {
                    assert(self.data@[shard_of(k2)]@ == old(self).data@[shard_of(k2)]@);
                } else {
                    if old(self).has_key(k2) {
                        let j = choose|j: int| 0 <= j < sh0.len() && (#[trigger] sh0[j]).key == k2;
                        assert(j != i as int);
                        assert(sh[j] == sh0[j]);
                        self.lemma_node_lookup(k2, j);
                        old(self).lemma_node_lookup(k2, j);
                    } else {
                        if self.has_key(k2) {
                            let j = choose|j: int|
                                0 <= j < sh.len() && (#[trigger] sh[j]).key == k2;
                            assert(j != i as int);
                            assert(sh0[j] == sh[j]);
                        }
                    }
                }
            }
            assert forall|k2: u64| #[trigger] self.has_key(k2) implies (
            self.node_of(k2).expiration matches Some(e) ==> self.em.has_pair(bucket_of(e), k2)
                && self.em.pair_conflict(bucket_of(e), k2) == self.node_of(k2).conflict) by {
                if k2 != item.key {
                    assert(old(self).has_key(k2));
                    match self.node_of(k2).expiration {
                        Some(e) => {
                            assert(old(self).node_of(k2) == self.node_of(k2));
                            assert(old(self).em.has_pair(bucket_of(e), k2));
                            assert(em_mid.has_pair(bucket_of(e), k2) && em_mid.pair_conflict(
                                bucket_of(e),
                                k2,
                            ) == self.node_of(k2).conflict);
                        },
                        None => {},
                    }
                }
            }
        }
    }

    /// Inserts the entry as new, registering its expiry.
    fn insert_new(&mut self, item: Node<V>)
        requires
            old(self).wf(),
            !old(self).has_key(item.key),
        ensures
            final(self).wf(),
            final(self).has_key(item.key),
            final(self).node_of(item.key) == item,
            forall|k2: u64|
                k2 != item.key ==> (final(self).has_key(k2) == old(self).has_key(k2) && (old(self).has_key(k2) ==> final(self).node_of(k2) == old(self).node_of(k2))),
            item.expiration matches Some(e) ==> final(self).em.has_pair(bucket_of(e), item.key)
                && final(self).em.pair_conflict(bucket_of(e), item.key) == item.conflict,
    {
        let s = self.bini(item.key);
        match item.expiration {
            Some(new_e) => {
                self.em.add(item.key, item.conflict, new_e);
            },
            None => {},
        }
        let ghost key = item.key;
        let ghost the_item = item;
        let mut shard: Vec<Node<V>> = Vec::new();
        self.data.set_and_swap(s, &mut shard);
        shard.push(item);
        self.data.set_and_swap(s, &mut shard);
        proof {
            let sh = self.data@[s as int]@;
            let sh0 = old(self).data@[s as int]@;
            let last = sh0.len() as int;
            assert(sh =~= sh0.push(the_item));
            assert forall|s2: int, i2: int|
                0 <= s2 < NUM_SHARDS && 0 <= i2 < self.data@[s2]@.len() implies shard_of(
                (#[trigger] self.data@[s2]@[i2]).key,
            ) == s2 by {
                if s2 != s as int || i2 != last {
                    assert(self.data@[s2]@[i2] == old(self).data@[s2]@[i2]);
                }
            }
            assert forall|s2: int, i2: int, j2: int|
                0 <= s2 < NUM_SHARDS && 0 <= i2 < j2 < self.data@[s2]@.len() implies (
            #[trigger] self.data@[s2]@[i2]).key != (#[trigger] self.data@[s2]@[j2]).key by {
                if s2 == s as int {
                    if j2 == last {
                        assert(sh[i2] == sh0[i2]);
                        assert(!shard_has(sh0, key) ==> sh0[i2].key != key);
                    } else {
                        assert(sh[i2] == sh0[i2] && sh[j2] == sh0[j2]);
                    }
                } else {
                    assert(self.data@[s2]@[i2] == old(self).data@[s2]@[i2]);
                    assert(self.data@[s2]@[j2] == old(self).data@[s2]@[j2]);
                }
            }
            self.lemma_node_lookup(key, last);
            assert forall|k2: u64| k2 != key implies (self.has_key(k2) == old(self).has_key(k2) && (
            old(self).has_key(k2) ==> self.node_of(k2) == old(self).node_of(k2))) by {
                if shard_of(k2) != s as int {
                    assert(self.data@[shard_of(k2)]@ == old(self).data@[shard_of(k2)]@);
                } else {
                    if old(self).has_key(k2) {
                        let j = choose|j: int| 0 <= j < sh0.len() && (#[trigger] sh0[j]).key == k2;
                        assert(sh[j] == sh0[j]);
                        self.lemma_node_lookup(k2, j);
                        old(self).lemma_node_lookup(k2, j);
                    } else {
                        if self.has_key(k2) {
                            let j = choose|j: int|
                                0 <= j < sh.len() && (#[trigger] sh[j]).key == k2;
                            assert(j != last);
                            assert(sh0[j] == sh[j]);
                        }
                    }
                }
            }
            assert forall|k2: u64| #[trigger] self.has_key(k2) implies (
            self.node_of(k2).expiration matches Some(e) ==> self.em.has_pair(bucket_of(e), k2)
                && self.em.pair_conflict(bucket_of(e), k2) == self.node_of(k2).conflict) by {
                if k2 != key {
                    assert(old(self).has_key(k2));
                    match self.node_of(k2).expiration {
                        Some(e) => {
                            assert(old(self).node_of(k2) == self.node_of(k2));
                            assert(old(self).em.has_pair(bucket_of(e), k2));
                        },
                        None => {},
                    }
                }
            }
        }
    }

    /// Stores the entry: a fresh key is inserted; an existing one is
    /// overwritten unless its stored conflict differs from a non-zero
    /// incoming one, which drops the write.
    pub fn set(&mut self, item: Node<V>)
        requires
            old(self).wf(),
        ensures
            final(self).wf(),
            old(self).has_key(item.key) && item.conflict != 0 && old(self).node_of(item.key).conflict
                != item.conflict ==> final(self).data@ == old(self).data@,
            !(old(self).has_key(item.key) && item.conflict != 0 && old(self).node_of(
                item.key,
            ).conflict != item.conflict) ==> final(self).has_key(item.key) && final(self).node_of(
                item.key,
            ) == item,
            forall|k2: u64|
                k2 != item.key ==> (final(self).has_key(k2) == old(self).has_key(k2) && (old(self).has_key(k2) ==> final(self).node_of(k2) == old(self).node_of(k2))),
    {
        let s = self.bini(item.key);
        let n = self.data[s].len();
        let mut i: usize = 0;
        while i < n
            invariant
                *self == *old(self),
                self.wf(),
                s == shard_of(item.key),
                i <= n,
                n == self.data@[s as int]@.len(),
                forall|j: int| 0 <= j < i ==> (#[trigger] self.data@[s as int]@[j]).key != item.key,
            decreases n - i,
        {
            if self.data[s][i].key == item.key {
                proof {
                    self.lemma_node_lookup(item.key, i as int);
                }
                if item.conflict != 0 && self.data[s][i].conflict != item.conflict {
                    return ;
                }
                self.replace_at(s, i, item);
                return ;
            }
            i = i + 1;
        }
        self.insert_new(item);
    }

    /// Overwrites the entry of `item.key` when it is present under a
    /// matching conflict; otherwise hands the item back untouched.
    pub fn update(&mut self, item: Node<V>) -> (r: Result<(), Node<V>>)
        requires
            old(self).wf(),
        ensures
            final(self).wf(),
            r is Ok <==> (old(self).has_key(item.key) && (item.conflict == 0 || old(self).node_of(
                item.key,
            ).conflict == item.conflict)),
            r is Ok ==> final(self).has_key(item.key) && final(self).node_of(item.key) == item && (
            item.expiration matches Some(e) ==> final(self).em.has_pair(bucket_of(e), item.key)
                && final(self).em.pair_conflict(bucket_of(e), item.key) == item.conflict),
            r matches Err(back) ==> back == item && final(self).data@ == old(self).data@,
            forall|k2: u64|
                k2 != item.key ==> (final(self).has_key(k2) == old(self).has_key(k2) && (old(self).has_key(k2) ==> final(self).node_of(k2) == old(self).node_of(k2))),
    {
        let s = self.bini(item.key);
        let n = self.data[s].len();
        let mut i: usize = 0;
        while i < n
            invariant
                *self == *old(self),
                self.wf(),
                s == shard_of(item.key),
                i <= n,
                n == self.data@[s as int]@.len(),
                forall|j: int| 0 <= j < i ==> (#[trigger] self.data@[s as int]@[j]).key != item.key,
            decreases n - i,
        {
            if self.data[s][i].key == item.key {
                proof {
                    self.lemma_node_lookup(item.key, i as int);
                }
                if item.conflict != 0 && self.data[s][i].conflict != item.conflict {
                    return Err(item);
                }
                self.replace_at(s, i, item);
                return Ok(());
            }
            i = i + 1;
        }
        Err(item)
    }

    /// Removes the entry of `key_hash` when the conflict hash matches, and
    /// returns its stored conflict and value.
    pub fn del(&mut self, key_hash: &u64, conflict: &u64) -> (r: Option<(u64, V)>)
        requires
            old(self).shards_ok(),
            old(self).em.wf(),
        ensures
            final(self).shards_ok(),
            final(self).em.wf(),
            old(self).wf() ==> final(self).wf(),
            r is Some <==> (old(self).has_key(*key_hash) && (*conflict == 0 || old(self).node_of(
                *key_hash,
            ).conflict == *conflict)),
            r matches Some(pair) ==> {
                &&& pair.0 == old(self).node_of(*key_hash).conflict
                &&& pair.1 == old(self).node_of(*key_hash).value
                &&& !final(self).has_key(*key_hash)
            },
            r is Some ==> (old(self).node_of(*key_hash).expiration matches Some(e) ==> !final(self).em.has_pair(bucket_of(e), *key_hash)),
            r is None ==> *final(self) == *old(self),
            forall|k2: u64|
                k2 != *key_hash ==> (final(self).has_key(k2) == old(self).has_key(k2) && (old(self).has_key(k2) ==> final(self).node_of(k2) == old(self).node_of(k2))),
            forall|b2: u64, k2: u64|
                k2 != *key_hash ==> (final(self).em.has_pair(b2, k2) == old(self).em.has_pair(
                    b2,
                    k2,
                ) && (old(self).em.has_pair(b2, k2) ==> final(self).em.pair_conflict(b2, k2) == old(self).em.pair_conflict(b2, k2))),
    {
        let s = self.bini(*key_hash);
        let n = self.data[s].len();
        let mut i: usize = 0;
        while i < n
            invariant
                *self == *old(self),
                self.shards_ok(),
                self.em.wf(),
                s == shard_of(*key_hash),
                i <= n,
                n == self.data@[s as int]@.len(),
                forall|j: int| 0 <= j < i ==> (#[trigger] self.data@[s as int]@[j]).key != *key_hash,
            decreases n - i,
        {
            if self.data[s][i].key == *key_hash {
                proof {
                    self.lemma_node_lookup(*key_hash, i as int);
                }
                if *conflict != 0 && self.data[s][i].conflict != *conflict {
                    return None;
                }
                let mut shard: Vec<Node<V>> = Vec::new();
                self.data.set_and_swap(s, &mut shard);
                let node = shard.remove(i);
                self.data.set_and_swap(s, &mut shard);
                match node.expiration {
                    Some(e) => {
                        self.em.del(&node.key, e);
                    },
                    None => {},
                }
                proof {
                    let sh = self.data@[s as int]@;
                    let sh0 = old(self).data@[s as int]@;
                    assert(sh =~= sh0.remove(i as int));
                    assert forall|s2: int, i2: int|
                        0 <= s2 < NUM_SHARDS && 0 <= i2 < self.data@[s2]@.len() implies shard_of(
                        (#[trigger] self.data@[s2]@[i2]).key,
                    ) == s2 by {
                        if s2 == s as int {
                            let i0 = if i2 < i { i2 } else { i2 + 1 };
                            assert(sh[i2] == sh0[i0]);
                        } else {
                            assert(self.data@[s2]@[i2] == old(self).data@[s2]@[i2]);
                        }
                    }
                    assert forall|s2: int, i2: int, j2: int|
                        0 <= s2 < NUM_SHARDS && 0 <= i2 < j2 < self.data@[s2]@.len() implies (
                    #[trigger] self.data@[s2]@[i2]).key != (#[trigger] self.data@[s2]@[j2]).key by {
                        if s2 == s as int {
                            let i0 = if i2 < i { i2 } else { i2 + 1 };
                            let j0 = if j2 < i { j2 } else { j2 + 1 };
                            assert(sh[i2] == sh0[i0] && sh[j2] == sh0[j0]);
                        } else {
                            assert(self.data@[s2]@[i2] == old(self).data@[s2]@[i2]);
                            assert(self.data@[s2]@[j2] == old(self).data@[s2]@[j2]);
                        }
                    }
                    assert(!self.has_key(*key_hash)) by {
                        if self.has_key(*key_hash) {
                            let j = choose|j: int|
                                0 <= j < sh.len() && (#[trigger] sh[j]).key == *key_hash;
                            let j0 = if j < i { j } else { j + 1 };
                            assert(sh[j] == sh0[j0]);
                        }
                    }
                    assert forall|k2: u64| k2 != *key_hash implies (self.has_key(k2) == old(self).has_key(k2) && (old(self).has_key(k2) ==> self.node_of(k2) == old(self).node_of(k2))) by {
                        if shard_of(k2) != s as int {
                            assert(self.data@[shard_of(k2)]@ == old(self).data@[shard_of(k2)]@);
                        } else {
                            if old(self).has_key(k2) {
                                let j0 = choose|j0: int|
                                    0 <= j0 < sh0.len() && (#[trigger] sh0[j0]).key == k2;
                                assert(j0 != i as int);
                                let j = if j0 < i { j0 } else { j0 - 1 };
                                assert(sh[j] == sh0[j0]);
                                self.lemma_node_lookup(k2, j);
                                old(self).lemma_node_lookup(k2, j0);
                            } else {
                                if self.has_key(k2) {
                                    let j = choose|j: int|
                                        0 <= j < sh.len() && (#[trigger] sh[j]).key == k2;
                                    let j0 = if j < i { j } else { j + 1 };
                                    assert(sh0[j0] == sh[j]);
                                }
                            }
                        }
                    }
                    if old(self).wf() {
                        assert forall|k2: u64| #[trigger] self.has_key(k2) implies (
                        self.node_of(k2).expiration matches Some(e) ==> self.em.has_pair(
                            bucket_of(e),
                            k2,
                        ) && self.em.pair_conflict(bucket_of(e), k2) == self.node_of(
                            k2,
                        ).conflict) by {
                            assert(k2 != *key_hash);
                            assert(old(self).has_key(k2));
                            match self.node_of(k2).expiration {
                                Some(e) => {
                                    assert(old(self).node_of(k2) == self.node_of(k2));
                                    assert(old(self).em.has_pair(bucket_of(e), k2));
                                },
                                None => {},
                            }
                        }
                        assert(self.wf());
                    }
                }
                return Some((node.conflict, node.value));
            }
            i = i + 1;
        }
        None
    }

    /// Drops every entry of every shard and wipes the expiration index.
    pub fn clear(&mut self)
        requires
            old(self).wf(),
        ensures
            final(self).wf(),
            forall|k: u64| !final(self).has_key(k),
            forall|b: u64, k: u64| !final(self).em.has_pair(b, k),
    {
        let fresh: Store<V> = Store::new();
        self.data = fresh.data;
        self.em = fresh.em;
    }

    /// Drains the past buckets of the expiration index and evicts every
    /// record they held that is still resident: each such entry leaves its
    /// shard and its key leaves the policy, releasing its cost.
    pub fn clean_up(&mut self, policy: &mut DefaultPolicy, now: u64)
        requires
            old(self).wf(),
            old(policy).wf(),
        ensures
            final(self).wf(),
            final(policy).wf(),
            final(policy).admitter@ == old(policy).admitter@,
            final(policy).evict.max_cost == old(policy).evict.max_cost,
            final(policy).evict.used <= old(policy).evict.used,
            // entries still resident are old entries, unchanged
            forall|k: u64|
                final(self).has_key(k) ==> old(self).has_key(k) && final(self).node_of(k) == old(self).node_of(k),
            // an entry can only vanish here when its bucket lies in the past
            forall|k: u64|
                old(self).has_key(k) && !final(self).has_key(k) ==> (old(self).node_of(
                    k,
                ).expiration matches Some(e) && bucket_of(e) < bucket_of(now)),
            // and every entry whose bucket lies in the past does vanish, from
            // the store and from the policy's cost accounting
            forall|k: u64| #![trigger old(self).node_of(k)]
                old(self).has_key(k) && (old(self).node_of(k).expiration matches Some(e)
                    && bucket_of(e) < bucket_of(now)) ==> !final(self).has_key(k)
                    && !final(policy).evict.has_key(k),
    {
        let pairs = self.em.cleanup(now);
        proof {
            assert forall|k: u64| #![trigger self.has_key(k)]
                self.has_key(k) && (old(self).node_of(k).expiration matches Some(e)
                    && bucket_of(e) < bucket_of(now)) implies exists|j: int|
                0 <= j < pairs@.len() && (#[trigger] pairs@[j]) == (
                k,
                old(self).node_of(k).conflict,
            ) by {
                assert(self.data@ == old(self).data@);
                assert(old(self).has_key(k));
                match old(self).node_of(k).expiration {
                    Some(e) => {
                        assert(old(self).em.has_pair(bucket_of(e), k));
                        assert(crate::ttl::in_out(
                            pairs@,
                            (k, old(self).em.pair_conflict(bucket_of(e), k)),
                        ));
                    },
                    None => {},
                }
            }
        }
        proof {
            assert forall|k: u64| #![trigger self.has_key(k)] self.has_key(k) implies (
            self.node_of(k).expiration matches Some(e) ==> (bucket_of(e) >= bucket_of(now)
                ==> self.em.has_pair(bucket_of(e), k) && self.em.pair_conflict(bucket_of(e), k)
                == self.node_of(k).conflict)) by {
                assert(old(self).has_key(k));
                match self.node_of(k).expiration {
                    Some(e) => {
                        assert(old(self).node_of(k) == self.node_of(k));
                        if bucket_of(e) >= bucket_of(now) {
                            assert(old(self).em.has_pair(bucket_of(e), k));
                        }
                    },
                    None => {},
                }
            }
        }
        let n = pairs.len();
        let mut i: usize = 0;
        while i < n
            invariant
                self.shards_ok(),
                self.em.wf(),
                policy.wf(),
                policy.admitter@ == old(policy).admitter@,
                policy.evict.max_cost == old(policy).evict.max_cost,
                policy.evict.used <= old(policy).evict.used,
                i <= n,
                n == pairs@.len(),
                // resident entries are old entries, unchanged
                forall|k: u64|
                    self.has_key(k) ==> old(self).has_key(k) && self.node_of(k) == old(self).node_of(k),
                forall|k: u64|
                    old(self).has_key(k) && !self.has_key(k) ==> (old(self).node_of(
                        k,
                    ).expiration matches Some(e) && bucket_of(e) < bucket_of(now)),
                // unexpired residents are still indexed
                forall|k: u64| #![trigger self.has_key(k)]
                    self.has_key(k) ==> (self.node_of(k).expiration matches Some(e)
                        ==> (bucket_of(e) >= bucket_of(now) ==> self.em.has_pair(bucket_of(e), k)
                        && self.em.pair_conflict(bucket_of(e), k) == self.node_of(k).conflict)),
                // every expired resident still has its record ahead of us
                forall|k: u64| #![trigger self.has_key(k)]
                    self.has_key(k) && (old(self).node_of(k).expiration matches Some(e)
                        && bucket_of(e) < bucket_of(now)) ==> exists|j: int|
                        i <= j < pairs@.len() && (#[trigger] pairs@[j]) == (
                        k,
                        old(self).node_of(k).conflict,
                    ),
                // evicted expired keys have left the policy too
                forall|k: u64| #![trigger policy.evict.has_key(k)]
                    old(self).has_key(k) && !self.has_key(k) ==> !policy.evict.has_key(k),
            decreases n - i,
        {
            let key = pairs[i].0;
            let conflict = pairs[i].1;
            let ghost pre = *self;
            let ghost ppre = *policy;
            let mut deleted = false;
            match self.expiration(&key) {
                None => {},
                Some(e) => {
                    if e / crate::ttl::BUCKET_DURATION_MS < now / crate::ttl::BUCKET_DURATION_MS {
                        policy.del(&key);
                        let _ = self.del(&key, &conflict);
                        deleted = true;
                    }
                },
            }
            proof {
                assert forall|k: u64| #![trigger self.has_key(k)]
                    self.has_key(k) && (old(self).node_of(k).expiration matches Some(e)
                        && bucket_of(e) < bucket_of(now)) implies exists|j: int|
                    i + 1 <= j < pairs@.len() && (#[trigger] pairs@[j]) == (
                    k,
                    old(self).node_of(k).conflict,
                ) by {
                    assert(pre.has_key(k));
                    let wj = choose|wj: int|
                        i <= wj < pairs@.len() && (#[trigger] pairs@[wj]) == (
                        k,
                        old(self).node_of(k).conflict,
                    );
                    if wj == i as int {
                        assert(key == k && conflict == old(self).node_of(k).conflict);
                        assert(deleted);
                        assert(!self.has_key(k));
                    }
                }
            }
            i = i + 1;
        }
        proof {
            assert forall|k: u64| #[trigger] self.has_key(k) implies (
            self.node_of(k).expiration matches Some(e) ==> self.em.has_pair(bucket_of(e), k)
                && self.em.pair_conflict(bucket_of(e), k) == self.node_of(k).conflict) by {
                match self.node_of(k).expiration {
                    Some(e) => {
                        assert(old(self).node_of(k) == self.node_of(k));
                        if bucket_of(e) < bucket_of(now) {
                            assert(false);
                        }
                    },
                    None => {},
                }
            }
            assert(self.wf());
        }
    }
}

} // verus!
