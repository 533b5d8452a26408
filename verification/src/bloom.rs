//! Doorkeeper Bloom filter: a power-of-two bit set probed at `set_locs`
//! positions per key. A query answers "possibly added" or "definitely not
//! added"; clearing wipes every bit.

use vstd::prelude::*;

verus! {

/// Mathematical state of the filter: the bit words, the size exponent
/// (the bit set holds `2^size_exp` bits), the index mask `2^size_exp - 1`,
/// the shift `64 - size_exp`, and the number of probes per key.
pub ghost struct BloomModel {
    pub bits: Seq<u64>,
    pub size_exp: u64,
    pub mask: u64,
    pub shift: u64,
    pub locs: u64,
}

pub open spec fn bm_wf(m: BloomModel) -> bool {
    &&& 9 <= m.size_exp <= 32
    &&& m.shift == 64 - m.size_exp
    &&& m.mask == (1u64 << m.size_exp) - 1
    &&& m.bits.len() == (m.mask + 1) / 64
    &&& 1 <= m.locs <= 64
}

/// The two 64-bit probe fragments of a key: its high `size_exp` bits and its
/// low `size_exp` bits.
pub open spec fn bm_high(m: BloomModel, hash: u64) -> u64 {
    hash >> m.shift
}

pub open spec fn bm_low(m: BloomModel, hash: u64) -> u64 {
    (hash << m.shift) >> m.shift
}

/// The i-th probe position of a key: `high + i * low`, masked into range.
pub open spec fn bm_probe(m: BloomModel, hash: u64, i: u64) -> u64 {
    ((bm_high(m, hash) + i * bm_low(m, hash)) as u64) & m.mask
}

/// Whether bit `idx` of the bit set is set.
pub open spec fn bm_bit(m: BloomModel, idx: u64) -> bool {
    (m.bits[(idx >> 6) as int] >> (idx & 63)) & 1u64 == 1u64
}

/// A key counts as present when all of its probe bits are set.
pub open spec fn bm_has(m: BloomModel, hash: u64) -> bool {
    forall|i: u64| i < m.locs ==> bm_bit(m, #[trigger] bm_probe(m, hash, i))
}

/// Setting one bit.
pub open spec fn bm_set(m: BloomModel, idx: u64) -> BloomModel {
    BloomModel {
        bits: m.bits.update((idx >> 6) as int, m.bits[(idx >> 6) as int] | (1u64 << (idx & 63))),
        ..m
    }
}

/// Setting the first `i` probe bits of a key.
pub open spec fn bm_add_n(m: BloomModel, hash: u64, i: nat) -> BloomModel
    decreases i,
{
    if i == 0 {
        m
    } else {
        bm_set(bm_add_n(m, hash, (i - 1) as nat), bm_probe(m, hash, (i - 1) as u64))
    }
}

/// Adding a key sets all of its probe bits.
pub open spec fn bm_add(m: BloomModel, hash: u64) -> BloomModel {
    bm_add_n(m, hash, m.locs as nat)
}

/// Clearing zeroes the whole bit set.
pub open spec fn bm_clear(m: BloomModel) -> BloomModel {
    BloomModel { bits: Seq::new(m.bits.len(), |w: int| 0u64), ..m }
}

/// Every probe position is in range of the bit set.
pub proof fn lemma_probe_range(m: BloomModel, hash: u64, i: u64)
    requires
        bm_wf(m),
        i < m.locs,
    ensures
        bm_probe(m, hash, i) <= m.mask,
        bm_high(m, hash) + i * bm_low(m, hash) < 0x8000_0000_0000_0000,
        (bm_probe(m, hash, i) >> 6) < m.bits.len(),
{
    let e = m.size_exp;
    let sh = m.shift;
    let h = bm_high(m, hash);
    let l = bm_low(m, hash);
    assert(h <= 0xFFFF_FFFFu64 && l <= 0xFFFF_FFFFu64) by (bit_vector)
        requires
            sh == 64 - e && 9 <= e <= 32 && h == (hash >> sh) && l == ((hash << sh) >> sh),
    ;
    assert(h + i * l < 0x8000_0000_0000_0000) by (nonlinear_arith)
        requires
            h <= 0xFFFF_FFFFu64 && l <= 0xFFFF_FFFFu64 && i <= 64,
    ;
    let mk = m.mask;
    let sum = (h + i * l) as u64;
    assert(sum & mk <= mk) by (bit_vector);
    let p = sum & mk;
    assert(p <= ((1u64 << e) - 1) && 9 <= e <= 32 ==> (p >> 6) < (1u64 << e) / 64)
        by (bit_vector);
    assert(m.bits.len() == (1u64 << e) / 64);
}

/// Setting a bit leaves every other bit as it was.
pub proof fn lemma_set_bit(m: BloomModel, idx: u64, idx2: u64)
    requires
        bm_wf(m),
        idx <= m.mask,
        idx2 <= m.mask,
    ensures
        bm_wf(bm_set(m, idx)),
        bm_bit(bm_set(m, idx), idx2) <==> (bm_bit(m, idx2) || idx2 == idx),
{
    let e = m.size_exp;
    assert((idx >> 6) < (1u64 << e) / 64 && (idx2 >> 6) < (1u64 << e) / 64) by (bit_vector)
        requires
            idx <= (1u64 << e) - 1 && idx2 <= (1u64 << e) - 1 && 9 <= e <= 32,
    ;
    assert(m.bits.len() == (1u64 << e) / 64);
    let w = m.bits[(idx >> 6) as int];
    let w2 = m.bits[(idx2 >> 6) as int];
    if idx >> 6 == idx2 >> 6 {
        assert((((w | (1u64 << (idx & 63))) >> (idx2 & 63)) & 1u64 == 1u64) <==> (((w >> (idx2
            & 63)) & 1u64 == 1u64) || idx2 == idx)) by (bit_vector)
            requires
                idx >> 6 == idx2 >> 6,
        ;
    } else {
        assert(idx2 != idx) by (bit_vector)
            requires
                idx >> 6 != idx2 >> 6,
        ;
    }
}

/// After the first `i` probe bits of a key are set, a bit is set exactly when
/// it was set before or is one of those probes.
pub proof fn lemma_add_n_bits(m: BloomModel, hash: u64, i: nat, idx: u64)
    requires
        bm_wf(m),
        i <= m.locs,
        idx <= m.mask,
    ensures
        bm_wf(bm_add_n(m, hash, i)),
        bm_add_n(m, hash, i).size_exp == m.size_exp,
        bm_add_n(m, hash, i).mask == m.mask,
        bm_add_n(m, hash, i).shift == m.shift,
        bm_add_n(m, hash, i).locs == m.locs,
        bm_bit(bm_add_n(m, hash, i), idx) <==> (bm_bit(m, idx) || exists|j: u64|
            j < i && idx == #[trigger] bm_probe(m, hash, j)),
    decreases i,
{
    if i == 0 {
    } else {
        let prev = bm_add_n(m, hash, (i - 1) as nat);
        lemma_add_n_bits(m, hash, (i - 1) as nat, idx);
        let pj = bm_probe(m, hash, (i - 1) as u64);
        lemma_probe_range(m, hash, (i - 1) as u64);
        lemma_set_bit(prev, pj, idx);
        if bm_bit(bm_add_n(m, hash, i), idx) {
            if !bm_bit(m, idx) {
                if idx == pj {
                    assert(((i - 1) as u64) < i && idx == bm_probe(m, hash, (i - 1) as u64));
                }
            }
        } else {
            if exists|j: u64| j < i && idx == #[trigger] bm_probe(m, hash, j) {
                let j = choose|j: u64| j < i && idx == #[trigger] bm_probe(m, hash, j);
                assert(j < i - 1 || j == (i - 1) as u64);
                assert(false);
            }
        }
    }
}

/// Adding a key makes it present, keeps every bit that was set, and keeps
/// every other key that was present.
pub proof fn lemma_add_has(m: BloomModel, hash: u64)
    requires
        bm_wf(m),
    ensures
        bm_wf(bm_add(m, hash)),
        bm_add(m, hash).size_exp == m.size_exp,
        bm_add(m, hash).mask == m.mask,
        bm_add(m, hash).shift == m.shift,
        bm_add(m, hash).locs == m.locs,
        bm_has(bm_add(m, hash), hash),
        forall|h2: u64| bm_has(m, h2) ==> bm_has(bm_add(m, hash), h2),
{
    let ma = bm_add(m, hash);
    lemma_add_n_bits(m, hash, m.locs as nat, 0);
    assert forall|i: u64| i < m.locs implies bm_bit(ma, #[trigger] bm_probe(ma, hash, i)) by {
        lemma_probe_range(m, hash, i);
        lemma_add_n_bits(m, hash, m.locs as nat, bm_probe(m, hash, i));
        assert(bm_probe(ma, hash, i) == bm_probe(m, hash, i));
    }
    assert forall|h2: u64| bm_has(m, h2) implies bm_has(ma, h2) by {
        assert forall|i: u64| i < m.locs implies bm_bit(ma, #[trigger] bm_probe(ma, h2, i)) by {
            lemma_probe_range(m, h2, i);
            assert(bm_bit(m, bm_probe(m, h2, i)));
            lemma_add_n_bits(m, hash, m.locs as nat, bm_probe(m, h2, i));
            assert(bm_probe(ma, h2, i) == bm_probe(m, h2, i));
        }
    }
}

/// A cleared filter holds no key.
pub proof fn lemma_clear_has_none(m: BloomModel, hash: u64)
    requires
        bm_wf(m),
    ensures
        bm_wf(bm_clear(m)),
        !bm_has(bm_clear(m), hash),
{
    let mc = bm_clear(m);
    lemma_probe_range(m, hash, 0);
    let p = bm_probe(mc, hash, 0);
    lemma_probe_range(mc, hash, 0);
    assert((0u64 >> (p & 63)) & 1u64 == 0u64) by (bit_vector);
    assert(!bm_bit(mc, p));
}

/// Doorkeeper Bloom filter. `size` is the index mask `2^size_exp - 1`, as in
/// the probe arithmetic; the bit set holds `size + 1` bits in 64-bit words.
pub struct Bloom {
    bitset: Vec<u64>,
    elem_num: u64,
    size_exp: u64,
    size: u64,
    set_locs: u64,
    shift: u64,
}

impl View for Bloom {
    type V = BloomModel;

    closed spec fn view(&self) -> BloomModel {
        BloomModel {
            bits: self.bitset@,
            size_exp: self.size_exp,
            mask: self.size,
            shift: self.shift,
            locs: self.set_locs,
        }
    }
}

impl Bloom {
    pub open spec fn wf(&self) -> bool {
        bm_wf(self@)
    }

    /// Builds a filter of `nextPow2(max(512, num_entries))` bits probed at
    /// `locs` positions per key, with every bit clear.
    pub fn new(num_entries: u64, locs: u64) -> (b: Bloom)
        requires
            num_entries <= 0x1_0000_0000,
            1 <= locs <= 64,
        ensures
            b.wf(),
            b@.locs == locs,
            b@.mask + 1 >= 512,
            b@.mask + 1 >= num_entries,
            forall|h: u64| !bm_has(b@, h),
    {
        let (size, exponent) = getSize(num_entries);
        let mut b = Bloom {
            bitset: Vec::new(),
            elem_num: 0,
            size_exp: exponent,
            size: size - 1,
            set_locs: locs,
            shift: 64 - exponent,
        };
        b.size(size);
        proof {
            assert forall|h: u64| !bm_has(b@, h) by {
                lemma_clear_has_none(b@, h);
                assert(bm_clear(b@).bits =~= b@.bits);
                assert(bm_clear(b@) == b@);
            }
        }
        b
    }

    /// Makes the bit set hold `sz` bits, all clear.
    pub fn size(&mut self, sz: u64)
        requires
            sz == old(self)@.mask + 1,
            old(self)@.mask == (1u64 << old(self)@.size_exp) - 1,
            9 <= old(self)@.size_exp <= 32,
            old(self)@.shift == 64 - old(self)@.size_exp,
            1 <= old(self)@.locs <= 64,
        ensures
            final(self).wf(),
            final(self)@.size_exp == old(self)@.size_exp,
            final(self)@.mask == old(self)@.mask,
            final(self)@.shift == old(self)@.shift,
            final(self)@.locs == old(self)@.locs,
            forall|w: int| 0 <= w < final(self)@.bits.len() ==> final(self)@.bits[w] == 0u64,
    {
        let e = self.size_exp;
        proof {
            assert((1u64 << e) >> 6 == (1u64 << e) / 64 && (1u64 << e) / 64 <= 0x400_0000 && 512
                <= (1u64 << e)) by (bit_vector)
                requires
                    9 <= e <= 32,
            ;
        }
        let words: u64 = sz >> 6;
        let mut bitset: Vec<u64> = Vec::new();
        let mut j: usize = 0;
        let wus: usize = words as usize;
        while j < wus
            invariant
                bitset@.len() == j,
                j <= wus,
                forall|k: int| 0 <= k < j ==> bitset@[k] == 0u64,
            decreases wus - j,
        {
            bitset.push(0u64);
            j = j + 1;
        }
        self.bitset = bitset;
    }

    /// Whether bit `idx` of the bit set is set.
    pub fn isset(&self, idx: u64) -> (r: bool)
        requires
            self.wf(),
            idx <= self@.mask,
        ensures
            r == bm_bit(self@, idx),
    {
        proof {
            let e = self.size_exp;
            assert(idx <= (1u64 << e) - 1 && 9 <= e <= 32 ==> (idx >> 6) < (1u64 << e) / 64
                && (1u64 << e) / 64 <= 0x400_0000) by (bit_vector);
            assert(self@.bits.len() == (1u64 << e) / 64);
            assert(idx & 63 < 64) by (bit_vector);
        }
        let w = self.bitset[(idx >> 6) as usize];
        (w >> (idx & 63)) & 1 == 1
    }

    /// Sets bit `idx` of the bit set.
    pub fn set(&mut self, idx: u64)
        requires
            old(self).wf(),
            idx <= old(self)@.mask,
        ensures
            final(self).wf(),
            final(self)@ == bm_set(old(self)@, idx),
    {
        proof {
            let e = self.size_exp;
            assert(idx <= (1u64 << e) - 1 && 9 <= e <= 32 ==> (idx >> 6) < (1u64 << e) / 64
                && (1u64 << e) / 64 <= 0x400_0000) by (bit_vector);
            assert(self@.bits.len() == (1u64 << e) / 64);
            assert(idx & 63 < 64) by (bit_vector);
        }
        let word_idx = (idx >> 6) as usize;
        let w = self.bitset[word_idx];
        self.bitset.set(word_idx, w | (1u64 << (idx & 63)));
    }

    /// Sets all probe bits of `hash` and counts the bits walked.
    pub fn add(&mut self, hash: u64)
        requires
            old(self).wf(),
        ensures
            final(self).wf(),
            final(self)@ == bm_add(old(self)@, hash),
            bm_has(final(self)@, hash),
    {
        let h = hash >> self.shift;
        let l = (hash << self.shift) >> self.shift;
        let ghost m0 = self@;
        let locs = self.set_locs;
        let mut i: u64 = 0;
        while i < locs
            invariant
                self.wf(),
                i <= locs,
                locs == m0.locs,
                bm_wf(m0),
                h == bm_high(m0, hash),
                l == bm_low(m0, hash),
                self@ == bm_add_n(m0, hash, i as nat),
            decreases locs - i,
        {
            proof {
                lemma_probe_range(m0, hash, i);
                lemma_add_n_bits(m0, hash, i as nat, bm_probe(m0, hash, i));
            }
            self.set((h + i * l) & self.size);
            self.elem_num = self.elem_num.wrapping_add(1);
            i = i + 1;
        }
        proof {
            lemma_add_has(m0, hash);
        }
    }

    /// Whether all probe bits of `hash` are set: true once the hash was
    /// added, possibly true for a hash that never was.
    pub fn has(&self, hash: u64) -> (r: bool)
        requires
            self.wf(),
        ensures
            r == bm_has(self@, hash),
    {
        let h = hash >> self.shift;
        let l = (hash << self.shift) >> self.shift;
        let locs = self.set_locs;
        let mut i: u64 = 0;
        while i < locs
            invariant
                self.wf(),
                i <= locs,
                locs == self@.locs,
                h == bm_high(self@, hash),
                l == bm_low(self@, hash),
                forall|j: u64| j < i ==> bm_bit(self@, #[trigger] bm_probe(self@, hash, j)),
            decreases locs - i,
        {
            proof {
                lemma_probe_range(self@, hash, i);
            }
            if !self.isset((h + i * l) & self.size) {
                proof {
                    assert(!bm_bit(self@, bm_probe(self@, hash, i)));
                }
                return false;
            }
            i = i + 1;
        }
        true
    }

    /// Adds `hash` only when it is not yet present; reports whether it added.
    pub fn add_if_not_has(&mut self, hash: u64) -> (added: bool)
        requires
            old(self).wf(),
        ensures
            final(self).wf(),
            added == !bm_has(old(self)@, hash),
            final(self)@ == if added {
                bm_add(old(self)@, hash)
            } else {
                old(self)@
            },
            bm_has(final(self)@, hash),
    {
        if self.has(hash) {
            return false;
        }
        self.add(hash);
        true
    }

    /// Clears every bit.
    pub fn clear(&mut self)
        requires
            old(self).wf(),
        ensures
            final(self).wf(),
            final(self)@ == bm_clear(old(self)@),
            forall|h: u64| !bm_has(final(self)@, h),
    {
        let n = self.bitset.len();
        let mut j: usize = 0;
        while j < n
            invariant
                n == self.bitset@.len(),
                j <= n,
                self.size_exp == old(self).size_exp,
                self.size == old(self).size,
                self.shift == old(self).shift,
                self.set_locs == old(self).set_locs,
                self.elem_num == old(self).elem_num,
                old(self).wf(),
                self.bitset@.len() == old(self).bitset@.len(),
                forall|k: int| 0 <= k < j ==> self.bitset@[k] == 0u64,
            decreases n - j,
        {
            self.bitset.set(j, 0u64);
            j = j + 1;
        }
        proof {
            assert(self@.bits =~= bm_clear(old(self)@).bits);
            assert(self@ == bm_clear(old(self)@));
            assert forall|h: u64| !bm_has(self@, h) by {
                lemma_clear_has_none(old(self)@, h);
            }
        }
    }
}

/// The least power of two that is at least `max(512, u_i64)`, with its
/// exponent.
#[allow(non_snake_case)]
pub fn getSize(u_i64: u64) -> (r: (u64, u64))
    requires
        u_i64 <= 0x1_0000_0000,
    ensures
        r.0 == 1u64 << r.1,
        9 <= r.1 <= 32,
        r.0 >= 512,
        r.0 >= u_i64,
{
    let mut u = u_i64;
    if u < 512 {
        u = 512;
    }
    let mut exponent: u64 = 9;
    let mut size: u64 = 512;
    proof {
        assert(1u64 << 9u64 == 512) by (bit_vector);
    }
    while size < u
        invariant
            512 <= u <= 0x1_0000_0000,
            size == 1u64 << exponent,
            9 <= exponent <= 32,
            512 <= size <= 2 * u,
            exponent < 32 || size >= u,
        decreases 2 * u - size,
    {
        proof {
            let e = exponent;
            assert(9 <= e < 32 ==> (1u64 << ((e + 1) as u64)) == 2 * (1u64 << e) && (1u64 << e)
                >= 512) by (bit_vector);
            assert(exponent < 32);
            assert(1u64 << 32u64 == 0x1_0000_0000) by (bit_vector);
        }
        size = size * 2;
        exponent = exponent + 1;
    }
    (size, exponent)
}

} // verus!
