//! Lossy batching ring: a bounded stripe that buffers read events and hands
//! the whole batch out once it fills, so that many reads reach the policy's
//! estimator in one step.

use vstd::prelude::*;

verus! {

/// One bounded stripe of buffered key hashes.
pub struct RingStripe {
    pub data: Vec<u64>,
    pub capa: usize,
}

impl RingStripe {
    pub open spec fn wf(&self) -> bool {
        &&& 1 <= self.capa
        &&& self.data@.len() < self.capa
    }

    pub fn new(capa: usize) -> (r: RingStripe)
        requires
            1 <= capa,
        ensures
            r.wf(),
            r.capa == capa,
            r.data@.len() == 0,
    {
        RingStripe { data: Vec::new(), capa }
    }

    /// Appends one key hash; once the stripe reaches its capacity the whole
    /// batch is handed back and the stripe starts empty again.
    pub fn push(&mut self, item: u64) -> (drained: Option<Vec<u64>>)
        requires
            old(self).wf(),
        ensures
            final(self).wf(),
            final(self).capa == old(self).capa,
            old(self).data@.len() + 1 == old(self).capa ==> (drained matches Some(batch) && batch@
                == old(self).data@.push(item) && final(self).data@.len() == 0),
            old(self).data@.len() + 1 < old(self).capa ==> (drained is None && final(self).data@
                == old(self).data@.push(item)),
    {
        self.data.push(item);
        if self.data.len() >= self.capa {
            let mut batch: Vec<u64> = Vec::new();
            core::mem::swap(&mut batch, &mut self.data);
            Some(batch)
        } else {
            None
        }
    }
}

/// The ring buffer handed to readers; it owns the stripe.
pub struct RingBuffer {
    pub pool: RingStripe,
}

impl RingBuffer {
    pub open spec fn wf(&self) -> bool {
        self.pool.wf()
    }

    pub fn new(capa: usize) -> (r: RingBuffer)
        requires
            1 <= capa,
        ensures
            r.wf(),
            r.pool.capa == capa,
            r.pool.data@.len() == 0,
    {
        RingBuffer { pool: RingStripe::new(capa) }
    }

    /// Buffers one read event; a full stripe drains into the returned batch.
    pub fn push(&mut self, item: u64) -> (drained: Option<Vec<u64>>)
        requires
            old(self).wf(),
        ensures
            final(self).wf(),
            final(self).pool.capa == old(self).pool.capa,
            old(self).pool.data@.len() + 1 == old(self).pool.capa ==> (drained matches Some(batch)
                && batch@ == old(self).pool.data@.push(item) && final(self).pool.data@.len() == 0),
            old(self).pool.data@.len() + 1 < old(self).pool.capa ==> (drained is None && final(self).pool.data@ == old(self).pool.data@.push(item)),
    {
        self.pool.push(item)
    }
}

} // verus!
