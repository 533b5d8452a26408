//! Segmented policy sketch: a window queue in front of probation and
//! protected queues, with a key map deciding hits and misses. A recorded
//! miss enters the window; once the map is full a victim leaves.

use vstd::prelude::*;
use crate::list::LinkedList;

verus! {

pub enum AdmissionPolicy {
    Recorde(u64),
    Admit(u64, u64),
}

pub enum StatsRecorder {
    RecordMiss,
    RecordHit,
    RecordEviction,
}

/// The window share: all but `main` of the capacity, where `main` is 99
/// hundredths of it, at least 2 and below the full capacity.
pub open spec fn seg_main(capacity: int) -> int {
    let m = capacity * 99 / 100;
    let m2 = if m < 2 {
        2int
    } else {
        m
    };
    if m2 == capacity {
        capacity - 1
    } else {
        m2
    }
}

/// The protected share: four fifths of `main`, at least 1 and below `main`.
pub open spec fn seg_protected(capacity: int) -> int {
    let m = seg_main(capacity);
    let p = m * 4 / 5;
    let p2 = if p < 1 {
        1int
    } else {
        p
    };
    if p2 == m {
        m - 1
    } else {
        p2
    }
}

pub open spec fn data_has(s: Seq<(u64, u64)>, key: u64) -> bool {
    exists|i: int| 0 <= i < s.len() && (#[trigger] s[i]).0 == key
}

/// Segmented admission policy state.
pub struct Policy {
    pub data: Vec<(u64, u64)>,
    pub admittor: Option<AdmissionPolicy>,
    pub stats: Option<StatsRecorder>,
    pub window: LinkedList<u64>,
    pub probation: LinkedList<u64>,
    pub protected: LinkedList<u64>,
    pub capacity: usize,
    pub max_window: usize,
    pub max_protected: usize,
}

impl Policy {
    pub open spec fn wf(&self) -> bool {
        &&& 2 < self.capacity
        &&& self.max_window == self.capacity - seg_main(self.capacity as int)
        &&& self.max_protected == seg_protected(self.capacity as int)
        &&& 1 <= self.max_window
    }

    /// A policy over `capacity` slots with the default segmentation: the
    /// main region takes 99 hundredths of the capacity and its protected
    /// part four fifths of that.
    pub fn new(capacity: usize) -> (p: Policy)
        requires
            2 < capacity <= 0x100_0000,
        ensures
            p.wf(),
            p.capacity == capacity,
            p.max_window == capacity - seg_main(capacity as int),
            p.max_protected == seg_protected(capacity as int),
            p.window@.len() == 0 && p.probation@.len() == 0 && p.protected@.len() == 0,
            p.data@.len() == 0,
    {
        let mut max_main = (capacity * 99) / 100;
        if max_main < 2 {
            max_main = 2;
        }
        if max_main == capacity {
            max_main = capacity - 1;
        }
        let mut max_protected = (max_main * 4) / 5;
        if max_protected < 1 {
            max_protected = 1;
        }
        if max_protected == max_main {
            max_protected = max_main - 1;
        }
        Policy {
            data: Vec::new(),
            admittor: None,
            stats: None,
            window: LinkedList::new(),
            probation: LinkedList::new(),
            protected: LinkedList::new(),
            capacity,
            max_window: capacity - max_main,
            max_protected,
        }
    }

    /// How many keys sit in the three queues together.
    pub fn len(&self) -> (n: usize)
        requires
            self.window@.len() + self.probation@.len() + self.protected@.len() <= usize::MAX,
        ensures
            n == self.window@.len() + self.probation@.len() + self.protected@.len(),
    {
        self.window.len() + self.probation.len() + self.protected.len()
    }

    fn data_contains(&self, key: u64) -> (r: bool)
        ensures
            r == data_has(self.data@, key),
    {
        let n = self.data.len();
        let mut i: usize = 0;
        while i < n
            invariant
                i <= n,
                n == self.data@.len(),
                forall|j: int| 0 <= j < i ==> (#[trigger] self.data@[j]).0 != key,
            decreases n - i,
        {
            if self.data[i].0 == key {
                return true;
            }
            i = i + 1;
        }
        false
    }

    fn data_insert(&mut self, key: u64)
        ensures
            data_has(final(self).data@, key),
            final(self).window == old(self).window,
            final(self).probation == old(self).probation,
            final(self).protected == old(self).protected,
            final(self).capacity == old(self).capacity,
            final(self).max_window == old(self).max_window,
            final(self).max_protected == old(self).max_protected,
            final(self).data@.len() <= old(self).data@.len() + 1,
    {
        if !self.data_contains(key) {
            self.data.push(key_pair(key));
            proof {
                assert(self.data@[self.data@.len() - 1].0 == key);
            }
        }
    }

    fn data_remove(&mut self, key: u64)
        ensures
            final(self).window == old(self).window,
            final(self).probation == old(self).probation,
            final(self).protected == old(self).protected,
            final(self).capacity == old(self).capacity,
            final(self).max_window == old(self).max_window,
            final(self).max_protected == old(self).max_protected,
            final(self).data@.len() <= old(self).data@.len(),
    {
        let n = self.data.len();
        let mut i: usize = 0;
        while i < n
            invariant
                *self == *old(self),
                i <= n,
                n == self.data@.len(),
            decreases n - i,
        {
            if self.data[i].0 == key {
                self.data.remove(i);
                return ;
            }
            i = i + 1;
        }
    }

    /// Records one access: a key already mapped is a hit and changes
    /// nothing; a missing key is admitted through the window, evicting once
    /// the map is full.
    pub fn record(&mut self, key: u64)
        requires
            old(self).wf(),
            old(self).window@.len() + 2 <= usize::MAX,
            old(self).data@.len() + 1 <= usize::MAX,
            old(self).probation@.len() + 1 <= usize::MAX,
        ensures
            final(self).wf(),
            final(self).capacity == old(self).capacity,
            data_has(old(self).data@, key) ==> final(self).data@ == old(self).data@ && final(self).window == old(self).window,
            !data_has(old(self).data@, key) ==> data_has(final(self).data@, key) && final(self).window@.len() > 0 && final(self).window@[0] == key,
    {
        match self.admittor {
            None => {},
            Some(_) => {
                self.admittor = Some(AdmissionPolicy::Recorde(key));
            },
        }
        if self.data_contains(key) {
            return ;
        }
        if self.stats.is_none() {
            self.stats = Some(StatsRecorder::RecordMiss);
        }
        self.on_miss(key);
    }

    /// A missing key enters the window; once the map is at capacity, the
    /// probation tail (or the window candidate) leaves the map instead.
    fn on_miss(&mut self, key: u64)
        requires
            old(self).wf(),
            old(self).window@.len() + 2 <= usize::MAX,
            old(self).data@.len() + 1 <= usize::MAX,
            old(self).probation@.len() + 1 <= usize::MAX,
        ensures
            final(self).wf(),
            final(self).capacity == old(self).capacity,
            data_has(final(self).data@, key),
            final(self).window@.len() > 0 && final(self).window@[0] == key,
    {
        if self.window.len() < self.max_window {
            self.insert_window(key);
            return ;
        }
        let candidate: u64 = match self.window.back() {
            Some(c) => *c,
            None => {
                self.insert_window(key);
                return ;
            },
        };
        self.probation.push_front(candidate);
        if self.data.len() < self.capacity {
            self.insert_window(key);
            return ;
        }
        let mut evict: u64 = 0;
        match self.probation.back() {
            Some(v) => {
                match self.admittor {
                    None => {
                        evict = *v;
                    },
                    Some(_) => {},
                }
            },
            None => {},
        }
        self.data_remove(evict);
        self.data_insert(key);
        self.window.push_front(key);
        if self.stats.is_some() {
            self.stats = Some(StatsRecorder::RecordEviction);
        }
    }

    /// Puts a key straight into the window and the map.
    fn insert_window(&mut self, key: u64)
        requires
            old(self).wf(),
            old(self).window@.len() + 1 <= usize::MAX,
            old(self).data@.len() + 1 <= usize::MAX,
        ensures
            final(self).wf(),
            final(self).capacity == old(self).capacity,
            data_has(final(self).data@, key),
            final(self).window@.len() > 0 && final(self).window@[0] == key,
    {
        self.window.push_front(key);
        self.data_insert(key);
    }
}

/// The stored pair of a key: the map carries the key itself on both sides.
fn key_pair(key: u64) -> (p: (u64, u64))
    ensures
        p.0 == key,
        p.1 == key,
{
    (key, key)
}

} // verus!
