//! Count-min sketch: four rows of saturating 4-bit counters, two per byte.
//! A key is mapped into each row through a per-row seed, and its estimate is
//! the minimum counter over the rows.

use vstd::prelude::*;
use vstd::string::StringExecFns;

verus! {

/// Number of rows of the sketch.
pub const CM_DEPTH: usize = 4;

/// Mathematical state of a count-min sketch: one counter sequence per row
/// (each value at most 15), one seed per row, and the position mask
/// `width - 1`.
pub ghost struct SketchModel {
    pub counters: Seq<Seq<u8>>,
    pub seed: Seq<u64>,
    pub mask: u64,
}

/// A 4-bit counter increments only while below its cap of 15.
pub open spec fn sat_inc(c: u8) -> u8 {
    if c < 15 {
        (c + 1) as u8
    } else {
        c
    }
}

/// Row position of a key: its hash is mixed with the row's seed and masked
/// down to the row width.
pub open spec fn sm_pos(m: SketchModel, row: int, hashed: u64) -> int {
    ((hashed ^ m.seed[row]) & m.mask) as int
}

pub open spec fn sm_wf(m: SketchModel) -> bool {
    &&& m.counters.len() == CM_DEPTH
    &&& m.seed.len() == CM_DEPTH
    &&& 1 <= m.mask < 0x4000_0000u64
    &&& m.mask % 2 == 1
    &&& forall|r: int| 0 <= r < CM_DEPTH ==> (#[trigger] m.counters[r]).len() == m.mask + 1
    &&& forall|r: int, n: int|
        0 <= r < CM_DEPTH && 0 <= n <= m.mask ==> (#[trigger] m.counters[r][n]) <= 15
}

/// One increment bumps, in every row, the counter at the key's position,
/// saturating at 15.
pub open spec fn sm_increment(m: SketchModel, hashed: u64) -> SketchModel {
    SketchModel {
        counters: Seq::new(
            m.counters.len(),
            |r: int|
                m.counters[r].update(
                    sm_pos(m, r, hashed),
                    sat_inc(m.counters[r][sm_pos(m, r, hashed)]),
                ),
        ),
        ..m
    }
}

/// One increment of a single row: the counter at the key's position in that
/// row is bumped, saturating at 15.
pub open spec fn sm_bump(m: SketchModel, row: int, hashed: u64) -> SketchModel {
    SketchModel {
        counters: m.counters.update(
            row,
            m.counters[row].update(
                sm_pos(m, row, hashed),
                sat_inc(m.counters[row][sm_pos(m, row, hashed)]),
            ),
        ),
        ..m
    }
}

pub open spec fn min_u8(a: u8, b: u8) -> u8 {
    if a < b {
        a
    } else {
        b
    }
}

pub open spec fn sm_counter(m: SketchModel, r: int, hashed: u64) -> u8 {
    m.counters[r][sm_pos(m, r, hashed)]
}

/// The estimate of a key is the minimum counter over the four rows.
pub open spec fn sm_estimate(m: SketchModel, hashed: u64) -> u8 {
    min_u8(
        min_u8(sm_counter(m, 0, hashed), sm_counter(m, 1, hashed)),
        min_u8(sm_counter(m, 2, hashed), sm_counter(m, 3, hashed)),
    )
}

/// A reset halves every counter.
pub open spec fn sm_reset(m: SketchModel) -> SketchModel {
    SketchModel {
        counters: Seq::new(
            m.counters.len(),
            |r: int| Seq::new(m.counters[r].len(), |n: int| m.counters[r][n] / 2),
        ),
        ..m
    }
}

/// A clear zeroes every counter.
pub open spec fn sm_clear(m: SketchModel) -> SketchModel {
    SketchModel {
        counters: Seq::new(
            m.counters.len(),
            |r: int| Seq::new(m.counters[r].len(), |n: int| 0u8),
        ),
        ..m
    }
}

pub open spec fn sm_increment_n(m: SketchModel, hashed: u64, n: nat) -> SketchModel
    decreases n,
{
    if n == 0 {
        m
    } else {
        sm_increment(sm_increment_n(m, hashed, (n - 1) as nat), hashed)
    }
}

pub proof fn lemma_increment_wf(m: SketchModel, hashed: u64)
    requires
        sm_wf(m),
    ensures
        sm_wf(sm_increment(m, hashed)),
        sm_increment(m, hashed).seed == m.seed,
        sm_increment(m, hashed).mask == m.mask,
{
    assert forall|r: int| 0 <= r < CM_DEPTH implies 0 <= #[trigger] sm_pos(m, r, hashed) <= m.mask by {
        let s = m.seed[r];
        let mk = m.mask;
        assert(((hashed ^ s) & mk) <= mk) by (bit_vector);
    }
}

/// Bumping the four rows one after the other is exactly one increment.
pub proof fn lemma_bump_all(m: SketchModel, hashed: u64)
    requires
        sm_wf(m),
    ensures
        sm_bump(sm_bump(sm_bump(sm_bump(m, 0, hashed), 1, hashed), 2, hashed), 3, hashed)
            == sm_increment(m, hashed),
{
    let m1 = sm_bump(m, 0, hashed);
    let m2 = sm_bump(m1, 1, hashed);
    let m3 = sm_bump(m2, 2, hashed);
    let m4 = sm_bump(m3, 3, hashed);
    assert forall|r: int| 0 <= r < CM_DEPTH implies 0 <= #[trigger] sm_pos(m, r, hashed)
        <= m.mask by {
        let s = m.seed[r];
        let mk = m.mask;
        assert(((hashed ^ s) & mk) <= mk) by (bit_vector);
    }
    assert(m4.counters =~~= sm_increment(m, hashed).counters);
    assert(m4 == sm_increment(m, hashed));
}

/// Sketch saturation: n repeated increments of one key raise its estimate to
/// exactly the lesser of 15 and the old estimate plus n; in particular the
/// estimate is pinned at the 4-bit cap of 15 once n reaches 15.
pub proof fn lemma_sketch_saturation(m: SketchModel, hashed: u64, n: nat)
    requires
        sm_wf(m),
    ensures
        sm_wf(sm_increment_n(m, hashed, n)),
        sm_estimate(sm_increment_n(m, hashed, n), hashed) == if sm_estimate(m, hashed) + n
            <= 15 {
            sm_estimate(m, hashed) + n
        } else {
            15
        },
    decreases n,
{
    if n == 0 {
        assert forall|r: int| 0 <= r < CM_DEPTH implies #[trigger] sm_counter(m, r, hashed)
            <= 15 by {
            let s = m.seed[r];
            let mk = m.mask;
            assert(((hashed ^ s) & mk) <= mk) by (bit_vector);
        }
    } else {
        let prev = sm_increment_n(m, hashed, (n - 1) as nat);
        lemma_sketch_saturation(m, hashed, (n - 1) as nat);
        lemma_increment_wf(prev, hashed);
        assert forall|r: int| 0 <= r < CM_DEPTH implies #[trigger] sm_counter(
            sm_increment(prev, hashed),
            r,
            hashed,
        ) == sat_inc(sm_counter(prev, r, hashed)) by {
            let s = prev.seed[r];
            let mk = prev.mask;
            assert(((hashed ^ s) & mk) <= mk) by (bit_vector);
        }
        assert forall|r: int| 0 <= r < CM_DEPTH implies #[trigger] sm_counter(prev, r, hashed)
            <= 15 by {
            let s = prev.seed[r];
            let mk = prev.mask;
            assert(((hashed ^ s) & mk) <= mk) by (bit_vector);
        }
        assert(sm_increment_n(m, hashed, n) == sm_increment(prev, hashed));
        assert(sm_estimate(sm_increment(prev, hashed), hashed) == sat_inc(
            sm_estimate(prev, hashed),
        ));
        assert(sm_estimate(prev, hashed) == if sm_estimate(m, hashed) + (n - 1) <= 15 {
            sm_estimate(m, hashed) + (n - 1)
        } else {
            15
        });
        assert(sat_inc(sm_estimate(prev, hashed)) == if sm_estimate(m, hashed) + n <= 15 {
            sm_estimate(m, hashed) + n
        } else {
            15
        });
        assert(sm_estimate(sm_increment_n(m, hashed, n), hashed) == sm_estimate(
            sm_increment(prev, hashed),
            hashed,
        ));
    }
}

pub proof fn lemma_clear_wf(m: SketchModel)
    requires
        sm_wf(m),
    ensures
        sm_wf(sm_clear(m)),
        sm_clear(m).seed == m.seed,
        sm_clear(m).mask == m.mask,
{
}

/// Every estimate of a sketch whose counters are all zero is zero.
pub proof fn lemma_zero_estimate(m: SketchModel, hashed: u64)
    requires
        sm_wf(m),
        forall|r: int, n: int|
            0 <= r < CM_DEPTH && 0 <= n <= m.mask ==> (#[trigger] m.counters[r][n]) == 0,
    ensures
        sm_estimate(m, hashed) == 0,
{
    assert forall|r: int| 0 <= r < CM_DEPTH implies #[trigger] sm_counter(m, r, hashed) == 0 by {
        let s = m.seed[r];
        let mk = m.mask;
        assert(((hashed ^ s) & mk) <= mk) by (bit_vector);
    }
}

/// A cleared sketch estimates every key at zero.
pub proof fn lemma_clear_estimate(m: SketchModel, hashed: u64)
    requires
        sm_wf(m),
    ensures
        sm_wf(sm_clear(m)),
        sm_estimate(sm_clear(m), hashed) == 0,
{
    lemma_clear_wf(m);
    lemma_zero_estimate(sm_clear(m), hashed);
}

pub open spec fn nibble_lo(b: u8) -> u8 {
    b & 0x0f
}

pub open spec fn nibble_hi(b: u8) -> u8 {
    b >> 4
}

/// A reset halves both nibbles of a byte in one step.
pub open spec fn halved_byte(b: u8) -> u8 {
    (b >> 1) & 0x77
}

/// Count-min sketch over 4-bit counters. The rows live in one flat byte
/// vector, `CM_DEPTH` rows of `(mask + 1) / 2` bytes each.
pub struct CmSketch {
    data: Vec<u8>,
    seed: Vec<u64>,
    pub mask: u64,
}

impl View for CmSketch {
    type V = SketchModel;

    closed spec fn view(&self) -> SketchModel {
        SketchModel {
            counters: Seq::new(
                CM_DEPTH as nat,
                |r: int| Seq::new((self.mask + 1) as nat, |n: int| self.counter_at(r, n)),
            ),
            seed: self.seed@,
            mask: self.mask,
        }
    }
}

impl CmSketch {
    pub closed spec fn row_bytes_spec(&self) -> int {
        (self.mask + 1) / 2
    }

    pub closed spec fn counter_at(&self, r: int, n: int) -> u8 {
        if n % 2 == 1 {
            nibble_hi(self.data@[r * self.row_bytes_spec() + n / 2])
        } else {
            nibble_lo(self.data@[r * self.row_bytes_spec() + n / 2])
        }
    }

    pub closed spec fn wf(&self) -> bool {
        &&& self.seed@.len() == CM_DEPTH
        &&& 1 <= self.mask < 0x4000_0000u64
        &&& self.mask % 2 == 1
        &&& self.data@.len() == CM_DEPTH * ((self.mask + 1) / 2)
    }

    pub proof fn lemma_wf_model(&self)
        requires
            self.wf(),
        ensures
            sm_wf(self@),
    {
        assert forall|r: int, n: int| 0 <= r < CM_DEPTH && 0 <= n <= self.mask implies (
        #[trigger] self@.counters[r][n]) <= 15 by {
            let b = self.data@[r * self.row_bytes_spec() + n / 2];
            assert((b & 0x0f) <= 15 && (b >> 4) <= 15) by (bit_vector);
        }
    }

    /// Builds a sketch of `next_2_power(num_counter)` counters per row, with
    /// one independently drawn random seed per row and all counters zero.
    pub fn new(num_counter: i64) -> (s: CmSketch)
        requires
            2 <= num_counter <= 0x2000_0000,
        ensures
            s.wf(),
            sm_wf(s@),
            s@.mask + 1 >= num_counter,
            2 * (s@.mask + 1) < 4 * num_counter,
            forall|r: int, n: int|
                0 <= r < CM_DEPTH && 0 <= n <= s@.mask ==> (#[trigger] s@.counters[r][n]) == 0,
    {
        let width = next_2_power(num_counter);
        let mask = (width - 1) as u64;
        let row_bytes: usize = ((width / 2) as usize);
        let total: usize = CM_DEPTH * row_bytes;
        let mut data: Vec<u8> = Vec::new();
        let mut j: usize = 0;
        while j < total
            invariant
                data@.len() == j,
                j <= total,
                forall|b: int| 0 <= b < j ==> data@[b] == 0u8,
            decreases total - j,
        {
            data.push(0u8);
            j = j + 1;
        }
        let mut seed: Vec<u64> = Vec::new();
        seed.push(random_u64());
        seed.push(random_u64());
        seed.push(random_u64());
        seed.push(random_u64());
        let s = CmSketch { data, seed, mask };
        proof {
            let w = width;
            assert(w & ((w - 1) as i64) == 0 && 2 <= w ==> w % 2 == 0) by (bit_vector);
            assert(s.wf());
            s.lemma_wf_model();
            assert forall|r: int, n: int| 0 <= r < CM_DEPTH && 0 <= n <= s.mask implies (
            #[trigger] s@.counters[r][n]) == 0 by {
                assert(0 <= r * s.row_bytes_spec() + n / 2 < s.data@.len()) by (nonlinear_arith)
                    requires
                        0 <= r < 4,
                        0 <= n <= s.mask,
                        s.row_bytes_spec() == (s.mask + 1) / 2,
                        s.mask % 2 == 1,
                        s.data@.len() == 4 * ((s.mask + 1) / 2),
                ;
                let b = s.data@[r * s.row_bytes_spec() + n / 2];
                assert(b == 0);
                assert((0u8 & 0x0f) == 0 && (0u8 >> 4) == 0) by (bit_vector);
            }
        }
        s
    }

    /// Reads the current counter of `hashed` in row `i`.
    fn counter(&self, i: usize, hashed: u64) -> (c: u8)
        requires
            self.wf(),
            i < CM_DEPTH,
        ensures
            c == sm_counter(self@, i as int, hashed),
            c <= 15,
    {
        let row_bytes: usize = ((self.mask as usize) + 1) / 2;
        let pos = (hashed ^ self.seed[i]) & self.mask;
        proof {
            let s = self.seed@[i as int];
            let mk = self.mask;
            assert(((hashed ^ s) & mk) <= mk) by (bit_vector);
            assert(i * row_bytes + ((pos / 2) as int) < self.data@.len()) by (nonlinear_arith)
                requires
                    0 <= i < 4,
                    0 <= pos <= self.mask,
                    row_bytes == (self.mask + 1) / 2,
                    self.mask % 2 == 1,
                    self.data@.len() == 4 * ((self.mask + 1) / 2),
            ;
        }
        let idx: usize = i * row_bytes + (pos / 2) as usize;
        let b = self.data[idx];
        proof {
            assert((b & 0x0f) <= 15 && (b >> 4) <= 15) by (bit_vector);
            assert(pos % 2 == 1 <==> pos & 1 == 1) by (bit_vector);
        }
        if pos & 1 == 1 {
            b >> 4
        } else {
            b & 0x0f
        }
    }

    /// Bumps the counter of `hashed` in row `i`, saturating at 15; no other
    /// counter moves.
    fn bump_row(&mut self, i: usize, hashed: u64)
        requires
            old(self).wf(),
            i < CM_DEPTH,
        ensures
            final(self).wf(),
            final(self)@ == sm_bump(old(self)@, i as int, hashed),
    {
        let row_bytes: usize = ((self.mask as usize) + 1) / 2;
        let pos = (hashed ^ self.seed[i]) & self.mask;
        proof {
            let s = self.seed@[i as int];
            let mk = self.mask;
            assert(((hashed ^ s) & mk) <= mk) by (bit_vector);
            assert(i * row_bytes + ((pos / 2) as int) < self.data@.len()) by (nonlinear_arith)
                requires
                    0 <= i < 4,
                    0 <= pos <= self.mask,
                    row_bytes == (self.mask + 1) / 2,
                    self.mask % 2 == 1,
                    self.data@.len() == 4 * ((self.mask + 1) / 2),
            ;
        }
        let idx: usize = i * row_bytes + (pos / 2) as usize;
        let b = self.data[idx];
        proof {
            assert(pos % 2 == 1 <==> pos & 1 == 1) by (bit_vector);
        }
        if pos & 1 == 1 {
            let v = b >> 4;
            if v < 15 {
                proof {
                    assert((b >> 4) < 15 ==> b + 16 < 256 && ((b + 16) as u8) >> 4 == (b >> 4) + 1
                        && ((b + 16) as u8) & 0x0f == b & 0x0f) by (bit_vector);
                }
                self.data.set(idx, b + 16);
            }
        } else {
            let v = b & 0x0f;
            if v < 15 {
                proof {
                    assert((b & 0x0f) < 15 ==> b + 1 < 256 && ((b + 1) as u8) >> 4 == b >> 4 && ((b
                        + 1) as u8) & 0x0f == (b & 0x0f) + 1) by (bit_vector);
                }
                self.data.set(idx, b + 1);
            }
        }
        proof {
            let m0 = old(self)@;
            assert forall|r: int, n: int| 0 <= r < CM_DEPTH && 0 <= n <= self.mask implies (
            #[trigger] self.counter_at(r, n)) == if r == i && n == sm_pos(
                old(self)@,
                i as int,
                hashed,
            ) {
                sat_inc(old(self).counter_at(r, n))
            } else {
                old(self).counter_at(r, n)
            } by {
                let tgt = r * self.row_bytes_spec() + n / 2;
                assert(0 <= tgt < self.data@.len() && (tgt == idx <==> r == i && n / 2 == pos / 2))
                    by (nonlinear_arith)
                    requires
                        0 <= r < 4,
                        0 <= i < 4,
                        0 <= n <= self.mask,
                        0 <= pos <= self.mask,
                        idx == i * ((self.mask + 1) / 2) + pos / 2,
                        tgt == r * ((self.mask + 1) / 2) + n / 2,
                        self.row_bytes_spec() == (self.mask + 1) / 2,
                        self.mask % 2 == 1,
                        self.data@.len() == 4 * ((self.mask + 1) / 2),
                ;
                if r == i && n / 2 == pos / 2 && n != pos {
                    assert(n % 2 != pos % 2);
                }
            }
            assert forall|r: int| 0 <= r < CM_DEPTH implies self@.counters[r] =~= sm_bump(
                m0,
                i as int,
                hashed,
            ).counters[r] by {
                assert(0 <= sm_pos(m0, i as int, hashed) <= m0.mask);
            }
            assert(self@.counters =~~= sm_bump(m0, i as int, hashed).counters);
            assert(self@ == sm_bump(m0, i as int, hashed));
        }
    }

    /// Bumps the counter of `hashed` in every row, saturating at 15.
    pub fn increment(&mut self, hashed: u64)
        requires
            old(self).wf(),
        ensures
            final(self).wf(),
            final(self)@ == sm_increment(old(self)@, hashed),
    {
        proof {
            old(self).lemma_wf_model();
        }
        self.bump_row(0, hashed);
        self.bump_row(1, hashed);
        self.bump_row(2, hashed);
        self.bump_row(3, hashed);
        proof {
            lemma_bump_all(old(self)@, hashed);
        }
    }

    /// The estimate of a key: the minimum of its four row counters.
    pub fn estimate(&self, hashed: u64) -> (r: i64)
        requires
            self.wf(),
        ensures
            r == sm_estimate(self@, hashed),
            0 <= r <= 15,
    {
        let c0 = self.counter(0, hashed);
        let c1 = self.counter(1, hashed);
        let c2 = self.counter(2, hashed);
        let c3 = self.counter(3, hashed);
        let mut min: u8 = c0;
        if c1 < min {
            min = c1;
        }
        if c2 < min {
            min = c2;
        }
        if c3 < min {
            min = c3;
        }
        min as i64
    }

    /// Halves every counter: the periodic aging step.
    pub fn reset(&mut self)
        requires
            old(self).wf(),
        ensures
            final(self).wf(),
            final(self)@ == sm_reset(old(self)@),
    {
        let n = self.data.len();
        let mut j: usize = 0;
        while j < n
            invariant
                self.wf(),
                self.mask == old(self).mask,
                self.seed@ == old(self).seed@,
                n == self.data@.len(),
                j <= n,
                forall|b: int|
                    0 <= b < j ==> (#[trigger] self.data@[b]) == halved_byte(old(self).data@[b]),
                forall|b: int| j <= b < n ==> (#[trigger] self.data@[b]) == old(self).data@[b],
            decreases n - j,
        {
            let b = self.data[j];
            self.data.set(j, (b >> 1) & 0x77);
            j = j + 1;
        }
        proof {
            let m0 = old(self)@;
            assert forall|r: int| 0 <= r < CM_DEPTH implies self@.counters[r] =~= sm_reset(
                m0,
            ).counters[r] by {
                assert forall|n2: int| 0 <= n2 <= self.mask implies #[trigger] self.counter_at(
                    r,
                    n2,
                ) == old(self).counter_at(r, n2) / 2 by {
                    assert(0 <= r * self.row_bytes_spec() + n2 / 2 < self.data@.len())
                        by (nonlinear_arith)
                        requires
                            0 <= r < 4,
                            0 <= n2 <= self.mask,
                            self.row_bytes_spec() == (self.mask + 1) / 2,
                            self.mask % 2 == 1,
                            self.data@.len() == 4 * ((self.mask + 1) / 2),
                    ;
                    let ob = old(self).data@[r * self.row_bytes_spec() + n2 / 2];
                    assert((((ob >> 1) & 0x77) & 0x0f) == (ob & 0x0f) / 2 && (((ob >> 1) & 0x77)
                        >> 4) == (ob >> 4) / 2) by (bit_vector);
                }
            }
            assert(self@.counters =~~= sm_reset(m0).counters);
            assert(self@ == sm_reset(m0));
        }
    }

    /// Zeroes every counter.
    pub fn clear(&mut self)
        requires
            old(self).wf(),
        ensures
            final(self).wf(),
            final(self)@ == sm_clear(old(self)@),
    {
        let n = self.data.len();
        let mut j: usize = 0;
        while j < n
            invariant
                self.wf(),
                self.mask == old(self).mask,
                self.seed@ == old(self).seed@,
                n == self.data@.len(),
                j <= n,
                forall|b: int| 0 <= b < j ==> (#[trigger] self.data@[b]) == 0u8,
            decreases n - j,
        {
            self.data.set(j, 0u8);
            j = j + 1;
        }
        proof {
            let m0 = old(self)@;
            assert forall|r: int| 0 <= r < CM_DEPTH implies self@.counters[r] =~= sm_clear(
                m0,
            ).counters[r] by {
                assert forall|n2: int| 0 <= n2 <= self.mask implies #[trigger] self.counter_at(
                    r,
                    n2,
                ) == 0u8 by {
                    assert(0 <= r * self.row_bytes_spec() + n2 / 2 < self.data@.len())
                        by (nonlinear_arith)
                        requires
                            0 <= r < 4,
                            0 <= n2 <= self.mask,
                            self.row_bytes_spec() == (self.mask + 1) / 2,
                            self.mask % 2 == 1,
                            self.data@.len() == 4 * ((self.mask + 1) / 2),
                    ;
                    assert((0u8 & 0x0f) == 0 && (0u8 >> 4) == 0) by (bit_vector);
                }
            }
            assert(self@.counters =~~= sm_clear(m0).counters);
            assert(self@ == sm_clear(m0));
        }
    }

    /// Renders the counters of row `i` as decimal numbers, for inspection.
    pub fn row_string(&self, i: usize) -> (s: String)
        requires
            self.wf(),
            i < CM_DEPTH,
    {
        let row_bytes: usize = ((self.mask as usize) + 1) / 2;
        let mut out = String::new();
        let mut n: usize = 0;
        while n < 2 * row_bytes
            invariant
                self.wf(),
                i < CM_DEPTH,
                row_bytes == (self.mask + 1) / 2,
            decreases 2 * row_bytes - n,
        {
            proof {
                assert(i * row_bytes + n / 2 < self.data@.len()) by (nonlinear_arith)
                    requires
                        0 <= i < 4,
                        0 <= n < 2 * row_bytes,
                        row_bytes == (self.mask + 1) / 2,
                        self.data@.len() == 4 * ((self.mask + 1) / 2),
                ;
            }
            let b = self.data[i * row_bytes + n / 2];
            let v: u8 = if n % 2 == 1 {
                b >> 4
            } else {
                b & 0x0f
            };
            proof {
                assert((b >> 4) <= 15 && (b & 0x0f) <= 15) by (bit_vector);
            }
            let digits: &str = match v {
                0 => "00 ",
                1 => "01 ",
                2 => "02 ",
                3 => "03 ",
                4 => "04 ",
                5 => "05 ",
                6 => "06 ",
                7 => "07 ",
                8 => "08 ",
                9 => "09 ",
                10 => "10 ",
                11 => "11 ",
                12 => "12 ",
                13 => "13 ",
                14 => "14 ",
                _ => "15 ",
            };
            out.append(digits);
            n = n + 1;
        }
        out
    }
}

/// Relies on rand::random::<u64>: a fresh pseudorandom value; nothing is
/// promised of it.
#[verifier::external_body]
fn random_u64() -> u64 {
    rand::random::<u64>()
}

/// The smallest power of two that is at least `x`.
pub fn next_2_power(x: i64) -> (r: i64)
    requires
        1 <= x <= 0x4000_0000_0000_0000,
    ensures
        r >= x,
        r < 2 * x,
        r & ((r - 1) as i64) == 0,
        r >= 1,
{
    let mut p: i64 = 1;
    proof {
        assert(1i64 & ((1i64 - 1) as i64) == 0) by (bit_vector);
    }
    while p < x
        invariant
            1 <= p,
            p < 2 * x,
            x <= 0x4000_0000_0000_0000,
            p & ((p - 1) as i64) == 0,
        decreases 2 * x - p,
    {
        let ghost q = p;
        p = p * 2;
        proof {
            assert(q & ((q - 1) as i64) == 0 && 1 <= q < 0x4000_0000_0000_0000i64 && p == 2 * q
                ==> p & ((p - 1) as i64) == 0) by (bit_vector);
        }
    }
    p
}

} // verus!
