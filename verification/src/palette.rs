//! Palette-compressed storage for the 32768 voxel states of one subchunk.
//!
//! A subchunk keeps an ordered palette of distinct states and, for each of
//! its cells, a small index into that palette. The indices are packed into
//! 64-bit words at 0, 4, 8 or 16 bits per index (BPI); the width grows with
//! the palette and never shrinks. A bounded open-addressed cache maps states
//! back to palette indices on the write path.

use vstd::prelude::*;
use crate::bits::{get_lane, lane_of, lanes_per_word, lemma_zero_word, set_lane};
use crate::consts::SUBCHUNK_LENGTH;
use crate::voxel::Voxel;

verus! {

/// Bits-per-index of the packed index buffer: one of 0, 4, 8, 16.
#[derive(Copy, Clone, Eq, PartialEq, Structural, Debug)]
pub enum Bpi {
    B0,
    B4,
    B8,
    B16,
}

impl Bpi {
    /// The width of one packed index, in bits.
    pub open spec fn spec_bits(self) -> u64 {
        match self {
            Bpi::B0 => 0,
            Bpi::B4 => 4,
            Bpi::B8 => 8,
            Bpi::B16 => 16,
        }
    }

    /// The width of one packed index, in bits.
    pub fn bits(self) -> (r: u64)
        ensures
            r == self.spec_bits(),
    {
        match self {
            Bpi::B0 => 0,
            Bpi::B4 => 4,
            Bpi::B8 => 8,
            Bpi::B16 => 16,
        }
    }

    /// How many packed indices one 64-bit word holds.
    pub fn lanes(self) -> (r: u64)
        requires
            self != Bpi::B0,
        ensures
            r == lanes_per_word(self.spec_bits()),
    {
        match self {
            Bpi::B0 => 0,
            Bpi::B4 => 16,
            Bpi::B8 => 8,
            Bpi::B16 => 4,
        }
    }

    /// The next wider index width on the promotion ladder; the widest
    /// width stays where it is.
    pub open spec fn spec_next(self) -> Bpi {
        match self {
            Bpi::B0 => Bpi::B4,
            Bpi::B4 => Bpi::B8,
            Bpi::B8 => Bpi::B16,
            Bpi::B16 => Bpi::B16,
        }
    }

    /// The next wider index width on the promotion ladder.
    pub fn next(&self) -> (r: Bpi)
        ensures
            r == self.spec_next(),
    {
        match self {
            Bpi::B0 => Bpi::B4,
            Bpi::B4 => Bpi::B8,
            Bpi::B8 => Bpi::B16,
            Bpi::B16 => Bpi::B16,
        }
    }

    /// The narrowest index width able to address a palette of `cap` entries.
    pub open spec fn spec_from_palette_cap(cap: int) -> Bpi {
        if cap <= 1 {
            Bpi::B0
        } else if cap <= 16 {
            Bpi::B4
        } else if cap <= 256 {
            Bpi::B8
        } else {
            Bpi::B16
        }
    }

    /// The narrowest index width able to address a palette of `cap` entries.
    pub fn from_palette_cap(cap: usize) -> (r: Bpi)
        ensures
            r == Bpi::spec_from_palette_cap(cap as int),
    {
        if cap <= 1 {
            Bpi::B0
        } else if cap <= 16 {
            Bpi::B4
        } else if cap <= 256 {
            Bpi::B8
        } else {
            Bpi::B16
        }
    }
}

/// Number of 64-bit words the packed index buffer holds at this width.
pub open spec fn spec_words_len(bpi: Bpi) -> int {
    match bpi {
        Bpi::B0 => 0,
        Bpi::B4 => 2048,
        Bpi::B8 => 4096,
        Bpi::B16 => 8192,
    }
}

/// Number of 64-bit words the packed index buffer holds at this width.
pub fn words_len(bpi: Bpi) -> (r: usize)
    ensures
        r == spec_words_len(bpi),
{
    match bpi {
        Bpi::B0 => 0,
        Bpi::B4 => 2048,
        Bpi::B8 => 4096,
        Bpi::B16 => 8192,
    }
}

/// Largest palette this index width can address.
pub open spec fn spec_max_palette_cap(bpi: Bpi) -> u32 {
    match bpi {
        Bpi::B0 => 1,
        Bpi::B4 => 16,
        Bpi::B8 => 256,
        Bpi::B16 => 65536,
    }
}

/// Largest palette this index width can address.
pub fn max_palette_cap(bpi: Bpi) -> (r: u32)
    ensures
        r == spec_max_palette_cap(bpi),
{
    match bpi {
        Bpi::B0 => 1,
        Bpi::B4 => 16,
        Bpi::B8 => 256,
        Bpi::B16 => 65536,
    }
}

/// The palette capacities the growth ladder can produce:
/// 1, 16, then 128 doubling up to 65536.
pub open spec fn cap_in_ladder(c: u32) -> bool {
    ||| c == 1
    ||| c == 16
    ||| c == 128
    ||| c == 256
    ||| c == 512
    ||| c == 1024
    ||| c == 2048
    ||| c == 4096
    ||| c == 8192
    ||| c == 16384
    ||| c == 32768
    ||| c == 65536
}

/// The capacity after one step of the growth ladder: 1 to 16, 16 to 128,
/// then doubling.
pub open spec fn grown_cap(c: u32) -> u32 {
    if c == 1 {
        16u32
    } else if c == 16 {
        128u32
    } else {
        (2 * c) as u32
    }
}

/// The palette after one state is resolved: unchanged when `v` is already
/// present, extended by `v` at the end when it is not.
pub open spec fn extended_with(p: Seq<u16>, v: u16) -> Seq<u16> {
    if p.contains(v) {
        p
    } else {
        p.push(v)
    }
}

/// The palette after a span of states is resolved in order: each state is
/// appended at its first appearance and left alone afterwards.
pub open spec fn palette_after_span(p: Seq<u16>, vs: Seq<Voxel>) -> Seq<u16>
    decreases vs.len(),
{
    if vs.len() == 0 {
        p
    } else {
        extended_with(palette_after_span(p, vs.drop_last()), vs.last().0)
    }
}

/// The sentinel palette index that marks an unused cache slot.
pub const CACHE_EMPTY: u16 = 0xFFFF;

/// One subchunk (32768 cells) of palette-compressed voxel states.
pub struct PaletteArray {
    /// Packed palette indices, one `bpi`-bit lane per cell. Empty at BPI 0,
    /// where every cell is palette entry 0.
    words: Vec<u64>,
    /// The distinct voxel states in use. Entry 0 is always state 0 (air) and
    /// entries, once assigned, never move: packed indices would otherwise be
    /// invalidated.
    palette: Vec<u16>,
    /// Current palette capacity on the growth ladder; when the palette fills
    /// it, the capacity steps and the index width may be promoted.
    palette_cap: u32,
    /// Open-addressed linear-probe cache from state to palette index.
    /// A slot with palette index `CACHE_EMPTY` is unused.
    cache: Vec<(u16, u16)>,
    /// Number of occupied cache slots.
    cache_size: usize,
    /// Occupancy at which the cache doubles (75% load).
    threshold: usize,
    /// Per-instance probe scrambler, seeded from the clock.
    random: u16,
    /// Current bits-per-index.
    bpi: Bpi,
}

impl PaletteArray {
    /// Current bits-per-index.
    pub closed spec fn spec_bpi(&self) -> Bpi {
        self.bpi
    }

    /// The ordered palette of distinct states this subchunk uses.
    pub closed spec fn palette(&self) -> Seq<u16> {
        self.palette@
    }

    /// Current palette capacity on the growth ladder.
    pub closed spec fn spec_palette_cap(&self) -> u32 {
        self.palette_cap
    }

    /// The packed palette index of cell `i`.
    pub closed spec fn pidx_at(&self, i: int) -> u64 {
        if self.bpi == Bpi::B0 {
            0u64
        } else {
            let ipu = lanes_per_word(self.bpi.spec_bits()) as int;
            lane_of(self.words@[i / ipu], (i % ipu) as u64, self.bpi.spec_bits())
        }
    }

    /// Structural invariant of the representation.
    pub closed spec fn wf(&self) -> bool {
        &&& self.palette@.len() >= 1
    &&& self.palette@[0] == 0
    &&& forall|i: int, j: int|
            0 <= i < j < self.palette@.len() ==> self.palette@[i] != self.palette@[j]
    &&& self.palette@.len() <= self.palette_cap
    &&& cap_in_ladder(self.palette_cap)
    &&& self.palette_cap <= spec_max_palette_cap(self.bpi)
    &&& self.words@.len() == spec_words_len(self.bpi)
    &&& forall|i: int| 0 <= i < SUBCHUNK_LENGTH ==> #[trigger] self.pidx_at(i) < self.palette@.len()
    &&& 16 <= self.cache@.len() <= 131072
    &&& forall|s: int|
            0 <= s < self.cache@.len() && (#[trigger] self.cache@[s]).1 != CACHE_EMPTY
                ==> self.cache@[s].1 < self.palette@.len() && self.palette@[self.cache@[s].1 as int]
                == self.cache@[s].0
    }

    /// The voxel state of every cell, in cell order.
    pub closed spec fn view(&self) -> Seq<u16> {
        Seq::new(SUBCHUNK_LENGTH as nat, |i: int| self.palette@[self.pidx_at(i) as int])
    }

    /// A fresh all-air subchunk: palette `[0]`, BPI 0, no index buffer.
    pub fn empty() -> (r: PaletteArray)
        ensures
            r.wf(),
            r.view() == Seq::new(SUBCHUNK_LENGTH as nat, |i: int| 0u16),
            r.palette() =~= seq![0u16],
            r.spec_bpi() == Bpi::B0,
            r.spec_palette_cap() == 1,
    {
        let random = init_random_state();
        let mut palette: Vec<u16> = Vec::new();
        palette.push(0);
        let r = PaletteArray {
            words: Vec::new(),
            palette,
            palette_cap: 1,
            cache: empty_cache(random),
            cache_size: 1,
            threshold: 11,
            random,
            bpi: Bpi::B0,
        };
        proof {
            assert(r.view() =~= Seq::new(SUBCHUNK_LENGTH as nat, |i: int| 0u16));
        }
        r
    }

    /// Read the packed palette index of cell `idx`.
    fn read_pidx(&self, idx: usize) -> (p: u64)
        requires
            self.wf(),
            idx < SUBCHUNK_LENGTH,
        ensures
            p == self.pidx_at(idx as int),
            p < self.palette@.len(),
    {
        let p = match self.bpi {
            Bpi::B0 => 0u64,
            Bpi::B4 => {
                let wi = idx / 16;
                get_lane(self.words[wi], (idx % 16) as u64, 4)
            },
            Bpi::B8 => {
                let wi = idx / 8;
                get_lane(self.words[wi], (idx % 8) as u64, 8)
            },
            Bpi::B16 => {
                let wi = idx / 4;
                get_lane(self.words[wi], (idx % 4) as u64, 16)
            },
        };
        proof {
            assert(self.pidx_at(idx as int) < self.palette@.len());
        }
        p
    }

    /// Write the packed palette index of cell `idx`, leaving every other
    /// cell's index unchanged. At BPI 0 the only writable index is 0 and the
    /// buffer stays empty.
    fn write_pidx(&mut self, idx: usize, p: u64)
        requires
            old(self).wf(),
            idx < SUBCHUNK_LENGTH,
            p < old(self).palette@.len(),
        ensures
            final(self).wf(),
            final(self).palette == old(self).palette,
            final(self).palette_cap == old(self).palette_cap,
            final(self).cache == old(self).cache,
            final(self).cache_size == old(self).cache_size,
            final(self).threshold == old(self).threshold,
            final(self).random == old(self).random,
            final(self).spec_bpi() == old(self).spec_bpi(),
            final(self).pidx_at(idx as int) == p,
            forall|k: int|
                0 <= k < SUBCHUNK_LENGTH && k != idx ==> final(self).pidx_at(k) == old(
                    self,
                ).pidx_at(k),
    {
        let (bits, ipu): (u64, usize) = match self.bpi {
            Bpi::B0 => {
                // p < palette.len() <= palette_cap <= 1, so p == 0, which is
                // what every cell already reads as.
                return ;
            },
            Bpi::B4 => (4, 16),
            Bpi::B8 => (8, 8),
            Bpi::B16 => (16, 4),
        };
        proof {
            lemma_cell_word_bounds(idx as int, ipu as int, self.words@.len() as int);
        }
        let wi = idx / ipu;
        let lane = (idx % ipu) as u64;
        let w2 = set_lane(self.words[wi], lane, bits, p);
        self.words[wi] = w2;
        proof {
            assert forall|k: int|
                0 <= k < SUBCHUNK_LENGTH && k != idx implies self.pidx_at(k) == old(
                self,
            ).pidx_at(k) by {
                if k / (ipu as int) == wi {
                    lemma_same_word_distinct_lanes(idx as int, k, ipu as int);
                } else {
                    lemma_cell_word_bounds(k, ipu as int, self.words@.len() as int);
                }
            }
        }
    }

    /// Extract the voxel state at cell `idx`.
    pub fn get(&self, idx: usize) -> (r: u16)
        requires
            self.wf(),
            idx < SUBCHUNK_LENGTH,
        ensures
            r == self@[idx as int],
    {
        let p = self.read_pidx(idx);
        self.palette[p as usize]
    }

    /// The palette index of `key`, inserting `key` at the end of the palette
    /// (growing it if full) when it is not yet present. The cells and the
    /// cache are not touched.
    fn find_or_insert_in_palette(&mut self, key: u16) -> (pidx: usize)
        requires
            old(self).wf(),
        ensures
            final(self).wf(),
            final(self)@ == old(self)@,
            old(self).palette@.is_prefix_of(final(self).palette@),
            pidx < final(self).palette@.len(),
            final(self).palette@[pidx as int] == key,
            final(self).palette@ == extended_with(old(self).palette@, key),
            old(self).palette@.contains(key) ==> final(self).palette_cap == old(self).palette_cap
                && final(self).bpi == old(self).bpi,
            !old(self).palette@.contains(key) ==> pidx == old(self).palette@.len(),
            !old(self).palette@.contains(key) && old(self).palette@.len() < old(self).palette_cap
                ==> final(self).palette_cap == old(self).palette_cap && final(self).bpi == old(
                self,
            ).bpi,
            !old(self).palette@.contains(key) && old(self).palette@.len() == old(self).palette_cap
                ==> final(self).palette_cap == grown_cap(old(self).palette_cap) && final(self).bpi
                == (if grown_cap(old(self).palette_cap) > spec_max_palette_cap(old(self).bpi) {
                old(self).bpi.spec_next()
            } else {
                old(self).bpi
            }),
            final(self).cache == old(self).cache,
            final(self).cache_size == old(self).cache_size,
            final(self).threshold == old(self).threshold,
            final(self).random == old(self).random,
    {
        let n = self.palette.len();
        let mut i: usize = 0;
        while i < n
            invariant
                i <= n,
                n == self.palette@.len(),
                self == old(self),
                self.wf(),
                forall|j: int| 0 <= j < i ==> self.palette@[j] != key,
            decreases n - i,
        {
            if self.palette[i] == key {
                proof {
                    lemma_prefix_refl(self.palette@);
                    assert(self.palette@.contains(key));
                    assert(extended_with(self.palette@, key) == self.palette@);
                }
                return i;
            }
            i += 1;
        }
        // `key` is not in the palette; grow if it is full, then append.
        proof {
            lemma_distinct_u16_missing(self.palette@, key);
            assert(!old(self).palette@.contains(key)) by {
                if old(self).palette@.contains(key) {
                    let j = choose|j: int|
                        0 <= j < old(self).palette@.len() && old(self).palette@[j] == key;
                    assert(false);
                }
            }
        }
        if self.palette.len() >= self.palette_cap as usize {
            self.grow_palette();
        }
        let ghost mid = *self;
        let pidx = self.palette.len();
        self.palette.push(key);
        proof {
            assert(mid.palette@.is_prefix_of(self.palette@)) by {
                assert(mid.palette@ =~= self.palette@.subrange(0, mid.palette@.len() as int));
            }
            assert(old(self).palette@.is_prefix_of(self.palette@));
            assert forall|i2: int| 0 <= i2 < SUBCHUNK_LENGTH implies #[trigger] self.pidx_at(i2)
                < self.palette@.len() by {
                assert(self.pidx_at(i2) == mid.pidx_at(i2));
                assert(mid.pidx_at(i2) < mid.palette@.len());
            }
            assert(self@ =~= old(self)@) by {
                assert forall|i2: int| 0 <= i2 < SUBCHUNK_LENGTH implies self@[i2] == old(
                    self,
                )@[i2] by {
                    assert(self.pidx_at(i2) == mid.pidx_at(i2));
                    assert(mid.pidx_at(i2) < mid.palette@.len());
                    assert(mid@[i2] == mid.palette@[mid.pidx_at(i2) as int]);
                }
            }
        }
        pidx
    }

    /// Step the palette capacity up the ladder and, when the new capacity
    /// outgrows the current index width, promote the width: 0 to 4 bits by
    /// allocating a zeroed index buffer, 4 to 8 or 8 to 16 bits by expanding
    /// the packed words in place. The packed index of every cell is kept.
    fn grow_palette(&mut self)
        requires
            old(self).wf(),
            old(self).palette_cap <= 32768,
        ensures
            final(self).wf(),
            final(self).palette == old(self).palette,
            final(self)@ == old(self)@,
            final(self).palette_cap > old(self).palette@.len(),
            final(self).palette_cap == grown_cap(old(self).palette_cap),
            final(self).bpi == (if grown_cap(old(self).palette_cap) > spec_max_palette_cap(
                old(self).bpi,
            ) {
                old(self).bpi.spec_next()
            } else {
                old(self).bpi
            }),
            forall|i: int|
                0 <= i < SUBCHUNK_LENGTH ==> final(self).pidx_at(i) == old(self).pidx_at(i),
            final(self).cache == old(self).cache,
            final(self).cache_size == old(self).cache_size,
            final(self).threshold == old(self).threshold,
            final(self).random == old(self).random,
    {
        let new_cap: u32 = if self.palette_cap == 1 {
            16
        } else if self.palette_cap == 16 {
            128
        } else {
            self.palette_cap * 2
        };
        self.palette_cap = new_cap;
        if new_cap > max_palette_cap(self.bpi) {
            let nb = self.bpi.next();
            let ghost before = *self;
            match self.bpi {
                Bpi::B0 => {
                    let mut w: Vec<u64> = Vec::new();
                    while w.len() < 2048
                        invariant
                            w@.len() <= 2048,
                            forall|k: int| 0 <= k < w@.len() ==> w@[k] == 0u64,
                        decreases 2048 - w.len(),
                    {
                        w.push(0);
                    }
                    self.words = w;
                },
                _ => {
                    let ob = self.bpi.bits();
                    let nw = expand_words(&self.words, ob, nb.bits());
                    self.words = nw;
                },
            }
            self.bpi = nb;
            proof {
                assert forall|i: int| 0 <= i < SUBCHUNK_LENGTH implies self.pidx_at(i) == old(
                    self,
                ).pidx_at(i) by {
                    lemma_pidx_preserved_by_promotion(before, *self, i);
                    assert(before.pidx_at(i) == old(self).pidx_at(i));
                }
            }
        }
        proof {
            assert(self.palette == old(self).palette);
            assert forall|i: int| 0 <= i < SUBCHUNK_LENGTH implies self.pidx_at(i) == old(
                self,
            ).pidx_at(i) by {}
            assert forall|i: int|
                0 <= i < SUBCHUNK_LENGTH implies #[trigger] self.pidx_at(i)
                    < self.palette@.len() by {
                assert(old(self).pidx_at(i) < old(self).palette@.len());
            }
            assert forall|i: int| 0 <= i < SUBCHUNK_LENGTH implies self@[i] == old(self)@[i] by {
                assert(self@[i] == self.palette@[self.pidx_at(i) as int]);
                assert(old(self)@[i] == old(self).palette@[old(self).pidx_at(i) as int]);
            }
            assert(self@ =~= old(self)@);
        }
    }

    /// Resolve `key` to its palette index, consulting the probe cache first
    /// and filling it on a miss. Inserts `key` into the palette when absent.
    /// The cells are not touched.
    fn search(&mut self, key: u16) -> (pidx: usize)
        requires
            old(self).wf(),
        ensures
            final(self).wf(),
            final(self)@ == old(self)@,
            old(self).palette@.is_prefix_of(final(self).palette@),
            pidx < final(self).palette@.len(),
            final(self).palette@[pidx as int] == key,
            final(self).palette@ == extended_with(old(self).palette@, key),
            old(self).palette@.contains(key) ==> final(self).palette_cap == old(self).palette_cap
                && final(self).bpi == old(self).bpi,
            !old(self).palette@.contains(key) && old(self).palette@.len() < old(self).palette_cap
                ==> final(self).palette_cap == old(self).palette_cap && final(self).bpi == old(
                self,
            ).bpi,
            !old(self).palette@.contains(key) && old(self).palette@.len() == old(self).palette_cap
                ==> final(self).palette_cap == grown_cap(old(self).palette_cap) && final(self).bpi
                == (if grown_cap(old(self).palette_cap) > spec_max_palette_cap(old(self).bpi) {
                old(self).bpi.spec_next()
            } else {
                old(self).bpi
            }),
    {
        let len = self.cache.len();
        let mut index = ((key ^ self.random) as usize) % len;
        let mut probes: usize = 0;
        while probes < len
            invariant
                self == old(self),
                self.wf(),
                len == self.cache@.len(),
                index < len,
            decreases len - probes,
        {
            let entry = self.cache[index];
            if entry.1 == CACHE_EMPTY {
                let pidx = self.find_or_insert_in_palette(key);
                // A palette index equal to the empty-slot sentinel cannot be
                // cached; that one state always takes the palette scan.
                if pidx < 0xFFFF {
                    let ghost mid = *self;
                    self.cache[index] = (key, pidx as u16);
                    if self.cache_size < self.cache.len() {
                        // the cache never fills: it doubles at 75% load
                        self.cache_size = self.cache_size + 1;
                    }
                    proof {
                        lemma_view_same_fields(mid, *self);
                        assert(self.cache@ == mid.cache@.update(index as int, (key, pidx as u16)));
                        assert forall|s: int|
                            0 <= s < self.cache@.len() && (#[trigger] self.cache@[s]).1
                                != CACHE_EMPTY implies self.cache@[s].1 < self.palette@.len()
                            && self.palette@[self.cache@[s].1 as int] == self.cache@[s].0 by {
                            if s != index {
                                assert(self.cache@[s] == mid.cache@[s]);
                            }
                        }
                        assert(self.wf());
                    }
                    if self.cache_size > self.threshold && self.cache.len() <= 65536 {
                        let ghost mid2 = *self;
                        self.grow_cache();
                        proof {
                            lemma_view_same_fields(mid2, *self);
                        }
                    }
                }
                return pidx;
            } else if entry.0 == key {
                proof {
                    lemma_prefix_refl(self.palette@);
                    assert(self.palette@[self.cache@[index as int].1 as int] == key);
                    assert(self.palette@.contains(key));
                    assert(extended_with(self.palette@, key) == self.palette@);
                }
                return entry.1 as usize;
            }
            index = (index + 1) % len;
            probes = probes + 1;
        }
        // Every probed slot holds another state: resolve in the palette
        // directly, leaving the cache alone.
        self.find_or_insert_in_palette(key)
    }

    /// Double the cache and rehash its entries into the larger table.
    fn grow_cache(&mut self)
        requires
            old(self).wf(),
            old(self).cache@.len() <= 65536,
        ensures
            final(self).wf(),
            final(self).palette == old(self).palette,
            final(self).words == old(self).words,
            final(self).spec_bpi() == old(self).spec_bpi(),
            final(self).palette_cap == old(self).palette_cap,
            final(self).random == old(self).random,
    {
        let old_size = self.cache.len();
        let new_size = old_size * 2;
        let mut nc: Vec<(u16, u16)> = Vec::new();
        while nc.len() < new_size
            invariant
                new_size <= 131072,
                nc@.len() <= new_size,
                forall|s: int| 0 <= s < nc@.len() ==> (#[trigger] nc@[s]).1 == CACHE_EMPTY,
            decreases new_size - nc.len(),
        {
            nc.push((0, CACHE_EMPTY));
        }
        let mut i: usize = 0;
        while i < old_size
            invariant
                self == old(self),
                self.wf(),
                old_size == self.cache@.len(),
                new_size == nc@.len(),
                new_size == 2 * old_size,
                32 <= new_size <= 131072,
                i <= old_size,
                forall|s: int|
                    0 <= s < nc@.len() && (#[trigger] nc@[s]).1 != CACHE_EMPTY ==> nc@[s].1
                        < self.palette@.len() && self.palette@[nc@[s].1 as int] == nc@[s].0,
            decreases old_size - i,
        {
            let item = self.cache[i];
            if item.1 != CACHE_EMPTY {
                let mut index = ((item.0 ^ self.random) as usize) % new_size;
                let mut probes: usize = 0;
                let mut placed = false;
                while probes < new_size && !placed
                    invariant
                        new_size == nc@.len(),
                        index < new_size,
                        item.1 != CACHE_EMPTY,
                        item.1 < self.palette@.len(),
                        self.palette@[item.1 as int] == item.0,
                        forall|s: int|
                            0 <= s < nc@.len() && (#[trigger] nc@[s]).1 != CACHE_EMPTY
                                ==> nc@[s].1 < self.palette@.len() && self.palette@[nc@[s].1 as int]
                                == nc@[s].0,
                    decreases new_size - probes + 1 - (if placed {
                        1int
                    } else {
                        0
                    }),
                {
                    if nc[index].1 == CACHE_EMPTY {
                        nc[index] = item;
                        placed = true;
                    } else {
                        index = (index + 1) % new_size;
                        probes = probes + 1;
                    }
                }
            }
            i = i + 1;
        }
        self.cache = nc;
        self.threshold = new_size - new_size / 4;
        proof {
            lemma_view_same_fields(*old(self), *self);
            assert(self.wf());
        }
    }

    /// Assign state `val` to cell `idx`. The packed index of every other
    /// cell, and every existing palette entry, is left in place.
    pub fn set(&mut self, idx: usize, val: u16)
        requires
            old(self).wf(),
            idx < SUBCHUNK_LENGTH,
        ensures
            final(self).wf(),
            final(self)@ == old(self)@.update(idx as int, val),
            old(self).palette().is_prefix_of(final(self).palette()),
            final(self).palette().contains(val),
            final(self).palette() == extended_with(old(self).palette(), val),
            old(self).palette().contains(val) ==> final(self).spec_palette_cap() == old(
                self,
            ).spec_palette_cap() && final(self).spec_bpi() == old(self).spec_bpi(),
            !old(self).palette().contains(val) && old(self).palette().len() < old(
                self,
            ).spec_palette_cap() ==> final(self).spec_palette_cap() == old(self).spec_palette_cap()
                && final(self).spec_bpi() == old(self).spec_bpi(),
            !old(self).palette().contains(val) && old(self).palette().len() == old(
                self,
            ).spec_palette_cap() ==> final(self).spec_palette_cap() == grown_cap(
                old(self).spec_palette_cap(),
            ) && final(self).spec_bpi() == (if grown_cap(old(self).spec_palette_cap())
                > spec_max_palette_cap(old(self).spec_bpi()) {
                old(self).spec_bpi().spec_next()
            } else {
                old(self).spec_bpi()
            }),
    {
        let p = self.search(val);
        let ghost mid = *self;
        self.write_pidx(idx, p as u64);
        proof {
            lemma_write_gives_update(mid, *self, old(self)@, idx as int, p as int, val);
        }
    }

    /// Assign state `val` to cell `idx`, returning the state it held before.
    pub fn replace(&mut self, idx: usize, val: u16) -> (r: u16)
        requires
            old(self).wf(),
            idx < SUBCHUNK_LENGTH,
        ensures
            r == old(self)@[idx as int],
            final(self).wf(),
            final(self)@ == old(self)@.update(idx as int, val),
            old(self).palette().is_prefix_of(final(self).palette()),
            final(self).palette().contains(val),
            final(self).palette() == extended_with(old(self).palette(), val),
            old(self).palette().contains(val) ==> final(self).spec_palette_cap() == old(
                self,
            ).spec_palette_cap() && final(self).spec_bpi() == old(self).spec_bpi(),
            !old(self).palette().contains(val) && old(self).palette().len() < old(
                self,
            ).spec_palette_cap() ==> final(self).spec_palette_cap() == old(self).spec_palette_cap()
                && final(self).spec_bpi() == old(self).spec_bpi(),
            !old(self).palette().contains(val) && old(self).palette().len() == old(
                self,
            ).spec_palette_cap() ==> final(self).spec_palette_cap() == grown_cap(
                old(self).spec_palette_cap(),
            ) && final(self).spec_bpi() == (if grown_cap(old(self).spec_palette_cap())
                > spec_max_palette_cap(old(self).spec_bpi()) {
                old(self).spec_bpi().spec_next()
            } else {
                old(self).spec_bpi()
            }),
    {
        let p = self.search(val);
        let o = self.read_pidx(idx);
        let r = self.palette[o as usize];
        proof {
            assert(self@[idx as int] == self.palette@[self.pidx_at(idx as int) as int]);
        }
        let ghost mid = *self;
        self.write_pidx(idx, p as u64);
        proof {
            lemma_write_gives_update(mid, *self, old(self)@, idx as int, p as int, val);
        }
        r
    }

    /// Read `out.len()` consecutive states starting at cell `start` into
    /// `out`.
    pub fn get_span(&self, start: usize, out: &mut Vec<Voxel>)
        requires
            self.wf(),
            start + old(out)@.len() <= SUBCHUNK_LENGTH,
        ensures
            final(out)@.len() == old(out)@.len(),
            forall|k: int|
                0 <= k < old(out)@.len() ==> (#[trigger] final(out)@[k]).0 == self@[start + k],
    {
        let n = out.len();
        let mut i: usize = 0;
        while i < n
            invariant
                self.wf(),
                i <= n,
                n == out@.len(),
                start + n <= SUBCHUNK_LENGTH,
                forall|k: int| 0 <= k < i ==> (#[trigger] out@[k]).0 == self@[start + k],
            decreases n - i,
        {
            let v = self.get(start + i);
            out[i] = Voxel(v);
            i = i + 1;
        }
    }

    /// Assign `span.len()` consecutive states starting at cell `start`.
    pub fn set_span(&mut self, start: usize, span: &[Voxel])
        requires
            old(self).wf(),
            start + span@.len() <= SUBCHUNK_LENGTH,
        ensures
            final(self).wf(),
            old(self).palette().is_prefix_of(final(self).palette()),
            final(self).palette() == palette_after_span(old(self).palette(), span@),
            old(self).spec_bpi().spec_bits() <= final(self).spec_bpi().spec_bits(),
            final(self)@.len() == old(self)@.len(),
            forall|k: int|
                0 <= k < span@.len() ==> final(self)@[start + k] == (#[trigger] span@[k]).0,
            forall|k: int|
                0 <= k < SUBCHUNK_LENGTH && !(start <= k < start + span@.len()) ==> final(self)@[k]
                    == old(self)@[k],
    {
        let n = span.len();
        let mut i: usize = 0;
        proof {
            assert(span@.take(0) =~= Seq::<Voxel>::empty());
        }
        while i < n
            invariant
                self.wf(),
                i <= n,
                n == span@.len(),
                start + n <= SUBCHUNK_LENGTH,
                old(self).palette@.is_prefix_of(self.palette@),
                self.palette@ == palette_after_span(old(self).palette@, span@.take(i as int)),
                old(self).bpi.spec_bits() <= self.bpi.spec_bits(),
                self@.len() == old(self)@.len(),
                forall|k: int| 0 <= k < i ==> self@[start + k] == (#[trigger] span@[k]).0,
                forall|k: int|
                    0 <= k < SUBCHUNK_LENGTH && !(start <= k < start + i) ==> self@[k] == old(
                        self,
                    )@[k],
            decreases n - i,
        {
            let ghost prev = *self;
            self.set(start + i, span[i].0);
            proof {
                lemma_prefix_trans(old(self).palette@, prev.palette@, self.palette@);
                assert(span@.take(i + 1).drop_last() =~= span@.take(i as int));
                assert(span@.take(i + 1).last() == span@[i as int]);
                lemma_bits_monotone_step(prev.bpi, self.bpi);
            }
            i = i + 1;
        }
        proof {
            assert(span@.take(n as int) =~= span@);
        }
    }

    /// A fresh all-air subchunk whose palette capacity (and index width)
    /// already suit a palette of `cap` entries, so early growth is avoided.
    pub fn with_palette_capacity(cap: usize) -> (r: PaletteArray)
        requires
            cap < 65536,
        ensures
            r.wf(),
            r.view() == Seq::new(SUBCHUNK_LENGTH as nat, |i: int| 0u16),
            r.palette() =~= seq![0u16],
            r.spec_bpi() == Bpi::spec_from_palette_cap(cap as int),
            cap <= r.spec_palette_cap(),
    {
        if cap <= 1 {
            return PaletteArray::empty();
        }
        let bpi = Bpi::from_palette_cap(cap);
        let random = init_random_state();
        let pcap: u32 = if cap <= 16 {
            16
        } else if cap <= 128 {
            128
        } else if cap <= 256 {
            256
        } else if cap <= 512 {
            512
        } else if cap <= 1024 {
            1024
        } else if cap <= 2048 {
            2048
        } else if cap <= 4096 {
            4096
        } else if cap <= 8192 {
            8192
        } else if cap <= 16384 {
            16384
        } else if cap <= 32768 {
            32768
        } else {
            65536
        };
        let wl = words_len(bpi);
        let mut words: Vec<u64> = Vec::new();
        while words.len() < wl
            invariant
                words@.len() <= wl,
                forall|k: int| 0 <= k < words@.len() ==> words@[k] == 0u64,
            decreases wl - words.len(),
        {
            words.push(0);
        }
        let mut palette: Vec<u16> = Vec::new();
        palette.push(0);
        let r = PaletteArray {
            words,
            palette,
            palette_cap: pcap,
            cache: empty_cache(random),
            cache_size: 1,
            threshold: 11,
            random,
            bpi,
        };
        proof {
            assert forall|i: int| 0 <= i < SUBCHUNK_LENGTH implies #[trigger] r.pidx_at(i)
                == 0u64 by {
                if r.bpi == Bpi::B4 {
                    lemma_cell_word_bounds(i, 16, 2048);
                    lemma_zero_word((i % 16) as u64, 4);
                } else if r.bpi == Bpi::B8 {
                    lemma_cell_word_bounds(i, 8, 4096);
                    lemma_zero_word((i % 8) as u64, 8);
                } else if r.bpi == Bpi::B16 {
                    lemma_cell_word_bounds(i, 4, 8192);
                    lemma_zero_word((i % 4) as u64, 16);
                }
            }
            assert(r.view() =~= Seq::new(SUBCHUNK_LENGTH as nat, |i: int| 0u16));
        }
        r
    }

    /// The number of distinct states in the palette.
    pub fn palette_len(&self) -> (r: usize)
        ensures
            r == self.palette().len(),
    {
        self.palette.len()
    }

    /// Current bits-per-index.
    pub fn bpi(&self) -> (r: Bpi)
        ensures
            r == self.spec_bpi(),
    {
        self.bpi
    }
}

/// A palette array always views as exactly one subchunk of cells.
pub broadcast proof fn lemma_palette_view_len(s: PaletteArray)
    ensures
        (#[trigger] s@).len() == SUBCHUNK_LENGTH,
{
}

/// One resolution step either keeps the index width or promotes it one
/// step up the ladder, so its bit count never shrinks.
proof fn lemma_bits_monotone_step(a: Bpi, b: Bpi)
    requires
        b == a || b == a.spec_next(),
    ensures
        a.spec_bits() <= b.spec_bits(),
{
}

/// Air is always palette entry 0: a well-formed palette is nonempty and
/// starts with state 0, whether or not any cell references it.
pub proof fn lemma_palette_air_entry(s: &PaletteArray)
    requires
        s.wf(),
    ensures
        s.palette().len() >= 1,
        s.palette()[0] == 0,
{
}

/// Every cell reads a state that is in the palette.
pub proof fn lemma_cell_state_in_palette(s: &PaletteArray, i: int)
    requires
        s.wf(),
        0 <= i < SUBCHUNK_LENGTH,
    ensures
        s.palette().contains(s@[i]),
{
    assert(s.pidx_at(i) < s.palette().len());
    assert(s.palette()[s.pidx_at(i) as int] == s@[i]);
}

/// Views are a function of the words, the palette and the index width alone.
proof fn lemma_view_same_fields(a: PaletteArray, b: PaletteArray)
    requires
        b.words == a.words,
        b.palette == a.palette,
        b.spec_bpi() == a.spec_bpi(),
    ensures
        b@ == a@,
        forall|i: int| #[trigger] b.pidx_at(i) == a.pidx_at(i),
{
    assert forall|i: int| #[trigger] b.pidx_at(i) == a.pidx_at(i) by {}
    assert(b@ =~= a@) by {
        assert forall|i: int| 0 <= i < SUBCHUNK_LENGTH implies b@[i] == a@[i] by {
            assert(b@[i] == b.palette@[b.pidx_at(i) as int]);
            assert(a@[i] == a.palette@[a.pidx_at(i) as int]);
        }
    }
}

/// Writing the packed index of one cell updates the view at that cell alone.
proof fn lemma_write_gives_update(
    mid: PaletteArray,
    fin: PaletteArray,
    orig: Seq<u16>,
    idx: int,
    p: int,
    val: u16,
)
    requires
        mid.wf(),
        0 <= idx < SUBCHUNK_LENGTH,
        mid@ == orig,
        orig.len() == SUBCHUNK_LENGTH,
        0 <= p < mid.palette@.len(),
        mid.palette@[p] == val,
        fin.palette == mid.palette,
        fin.pidx_at(idx) == p,
        forall|k: int| 0 <= k < SUBCHUNK_LENGTH && k != idx ==> fin.pidx_at(k) == mid.pidx_at(k),
        forall|k: int| 0 <= k < SUBCHUNK_LENGTH ==> #[trigger] fin.pidx_at(k) < fin.palette@.len(),
    ensures
        fin@ == orig.update(idx, val),
{
    assert(fin@ =~= orig.update(idx, val)) by {
        assert forall|k: int| 0 <= k < SUBCHUNK_LENGTH implies fin@[k] == orig.update(idx, val)[k] by {
            assert(fin@[k] == fin.palette@[fin.pidx_at(k) as int]);
            if k != idx {
                assert(mid@[k] == mid.palette@[mid.pidx_at(k) as int]);
            }
        }
    }
}

/// Prefix order on sequences is transitive.
proof fn lemma_prefix_trans(a: Seq<u16>, b: Seq<u16>, c: Seq<u16>)
    requires
        a.is_prefix_of(b),
        b.is_prefix_of(c),
    ensures
        a.is_prefix_of(c),
{
    assert(a =~= c.subrange(0, a.len() as int));
}

/// The packed index of each cell survives an index-width promotion.
proof fn lemma_pidx_preserved_by_promotion(a: PaletteArray, b: PaletteArray, i: int)
    requires
        0 <= i < SUBCHUNK_LENGTH,
        a.words@.len() == spec_words_len(a.spec_bpi()),
        b.palette == a.palette,
        a.spec_bpi() == Bpi::B0 ==> b.spec_bpi() == Bpi::B4 && b.words@.len() == 2048 && (forall|
            k: int,
        |
            0 <= k < 2048 ==> b.words@[k] == 0u64),
        a.spec_bpi() == Bpi::B4 ==> b.spec_bpi() == Bpi::B8 && expanded_from(
            b.words@,
            a.words@,
            4,
            8,
        ),
        a.spec_bpi() == Bpi::B8 ==> b.spec_bpi() == Bpi::B16 && expanded_from(
            b.words@,
            a.words@,
            8,
            16,
        ),
        a.spec_bpi() != Bpi::B16,
    ensures
        b.pidx_at(i) == a.pidx_at(i),
{
    if a.spec_bpi() == Bpi::B0 {
        lemma_zero_word((i % 16) as u64, 4);
    } else {
        let ob: u64 = if a.spec_bpi() == Bpi::B4 {
            4
        } else {
            8
        };
        let nb: u64 = (2 * ob) as u64;
        let h = lanes_per_word(nb) as int;
        lemma_split_div(i, h);
        let wi = i / (2 * h);
        let j = i % (2 * h);
        lemma_cell_word_bounds(i, 2 * h, a.words@.len() as int);
        if j < h {
            assert(lane_of(b.words@[2 * wi], j as u64, nb) == lane_of(a.words@[wi], j as u64, ob));
        } else {
            assert(lane_of(b.words@[2 * wi + 1], (j - h) as u64, nb) == lane_of(
                a.words@[wi],
                ((j - h) as u64 + lanes_per_word(nb)) as u64,
                ob,
            ));
            assert(((j - h) as u64 + lanes_per_word(nb)) as u64 == j as u64);
        }
    }
}

/// How the doubled-width word buffer `nw` relates to the old buffer `ow`:
/// word `i`'s lower-half lanes land in word `2i`, its upper-half lanes in
/// word `2i + 1`.
pub open spec fn expanded_from(nw: Seq<u64>, ow: Seq<u64>, ob: u64, nb: u64) -> bool {
    &&& nw.len() == 2 * ow.len()
    &&& forall|i: int, j: u64|
        0 <= i < ow.len() && j < lanes_per_word(nb) ==> #[trigger] lane_of(nw[2 * i], j, nb)
            == lane_of(ow[i], j, ob)
    &&& forall|i: int, j: u64|
        0 <= i < ow.len() && j < lanes_per_word(nb) ==> #[trigger] lane_of(nw[2 * i + 1], j, nb)
            == lane_of(ow[i], (j + lanes_per_word(nb)) as u64, ob)
}

/// Split a cell's word/lane position at width `2h` lanes-per-word into its
/// position at `h` lanes-per-word.
proof fn lemma_split_div(c: int, h: int)
    by (nonlinear_arith)
    requires
        h > 0,
        c >= 0,
    ensures
        c % (2 * h) < h ==> c / h == 2 * (c / (2 * h)) && c % h == c % (2 * h),
        c % (2 * h) >= h ==> c / h == 2 * (c / (2 * h)) + 1 && c % h == c % (2 * h) - h,
{
}

/// Expand one packed word from `ob` to `nb` bits per lane. The first half of
/// the lanes of `word` lands in the first result, the second half in the
/// second.
fn expand_bpi(word: u64, ob: u64, nb: u64) -> (r: (u64, u64))
    requires
        (ob == 4 && nb == 8) || (ob == 8 && nb == 16),
    ensures
        forall|j: u64|
            j < lanes_per_word(nb) ==> #[trigger] lane_of(r.0, j, nb) == lane_of(word, j, ob),
        forall|j: u64|
            j < lanes_per_word(nb) ==> #[trigger] lane_of(r.1, j, nb) == lane_of(
                word,
                (j + lanes_per_word(nb)) as u64,
                ob,
            ),
{
    let half: u64 = if ob == 4 {
        8
    } else {
        4
    };
    let mut lo: u64 = 0;
    let mut hi: u64 = 0;
    let mut j: u64 = 0;
    while j < half
        invariant
            (ob == 4 && nb == 8 && half == 8) || (ob == 8 && nb == 16 && half == 4),
            j <= half,
            forall|j2: u64| j2 < j ==> #[trigger] lane_of(lo, j2, nb) == lane_of(word, j2, ob),
            forall|j2: u64|
                j2 < j ==> #[trigger] lane_of(hi, j2, nb) == lane_of(word, (j2 + half) as u64, ob),
        decreases half - j,
    {
        let v1 = get_lane(word, j, ob);
        let v2 = get_lane(word, j + half, ob);
        lo = set_lane(lo, j, nb, v1);
        hi = set_lane(hi, j, nb, v2);
        j = j + 1;
    }
    (lo, hi)
}

/// Expand every packed word from `ob` to `nb` bits per lane, doubling the
/// buffer.
fn expand_words(words: &Vec<u64>, ob: u64, nb: u64) -> (r: Vec<u64>)
    requires
        (ob == 4 && nb == 8) || (ob == 8 && nb == 16),
        words@.len() <= 8192,
    ensures
        expanded_from(r@, words@, ob, nb),
{
    let mut r: Vec<u64> = Vec::new();
    let mut i: usize = 0;
    while i < words.len()
        invariant
            (ob == 4 && nb == 8) || (ob == 8 && nb == 16),
            words@.len() <= 8192,
            i <= words@.len(),
            r@.len() == 2 * i,
            forall|k: int, j: u64|
                0 <= k < i && j < lanes_per_word(nb) ==> #[trigger] lane_of(r@[2 * k], j, nb)
                    == lane_of(words@[k], j, ob),
            forall|k: int, j: u64|
                0 <= k < i && j < lanes_per_word(nb) ==> #[trigger] lane_of(r@[2 * k + 1], j, nb)
                    == lane_of(words@[k], (j + lanes_per_word(nb)) as u64, ob),
        decreases words@.len() - i,
    {
        let (lo, hi) = expand_bpi(words[i], ob, nb);
        r.push(lo);
        r.push(hi);
        i += 1;
    }
    r
}

/// A sequence of distinct 16-bit values missing at least one value has fewer
/// than 65536 entries.
proof fn lemma_distinct_u16_missing(s: Seq<u16>, extra: u16)
    requires
        forall|i: int, j: int| 0 <= i < j < s.len() ==> s[i] != s[j],
        forall|i: int| 0 <= i < s.len() ==> s[i] != extra,
    ensures
        s.len() <= 65535,
{
    let t = s.push(extra).map_values(|v: u16| v as int);
    assert(t.len() == s.len() + 1);
    assert(t.no_duplicates()) by {
        assert forall|i: int, j: int| 0 <= i < t.len() && 0 <= j < t.len() && i != j implies t[i]
            != t[j] by {
            assert(s.push(extra)[i] == if i < s.len() {
                s[i]
            } else {
                extra
            });
            assert(s.push(extra)[j] == if j < s.len() {
                s[j]
            } else {
                extra
            });
        }
    }
    t.unique_seq_to_set();
    let u = vstd::set_lib::set_int_range(0, 65536);
    vstd::set_lib::lemma_int_range(0, 65536);
    assert(t.to_set() <= u) by {
        assert forall|x: int| t.to_set().contains(x) implies u.contains(x) by {
            let i = choose|i: int| 0 <= i < t.len() && t[i] == x;
            assert(0 <= t[i] < 65536);
        }
    }
    vstd::set_lib::lemma_len_subset(t.to_set(), u);
}

/// A sequence is a prefix of itself.
proof fn lemma_prefix_refl(s: Seq<u16>)
    ensures
        s.is_prefix_of(s),
{
    assert(s =~= s.subrange(0, s.len() as int));
}

/// The cell states after performing each write `(cell, state)` of `w` in
/// order, starting from `v`. One `set` call performs exactly one such write:
/// its contract states that the view becomes `view.update(cell, state)`.
pub open spec fn apply_writes(v: Seq<u16>, w: Seq<(int, u16)>) -> Seq<u16>
    decreases w.len(),
{
    if w.len() == 0 {
        v
    } else {
        apply_writes(v, w.drop_last()).update(w.last().0, w.last().1)
    }
}

/// The state last written to cell `i` by `w`, if any write of `w` hits `i`.
pub open spec fn last_write(w: Seq<(int, u16)>, i: int) -> Option<u16>
    decreases w.len(),
{
    if w.len() == 0 {
        None
    } else if w.last().0 == i {
        Some(w.last().1)
    } else {
        last_write(w.drop_last(), i)
    }
}

/// Round trip: after any sequence of writes, each cell holds the state last
/// written to it, and cells never written keep their starting state.
pub proof fn lemma_last_write_wins(v: Seq<u16>, w: Seq<(int, u16)>, i: int)
    requires
        0 <= i < v.len(),
        forall|k: int| 0 <= k < w.len() ==> 0 <= (#[trigger] w[k]).0 < v.len(),
    ensures
        apply_writes(v, w).len() == v.len(),
        apply_writes(v, w)[i] == match last_write(w, i) {
            Some(x) => x,
            None => v[i],
        },
    decreases w.len(),
{
    if w.len() > 0 {
        assert(forall|k: int|
            0 <= k < w.drop_last().len() ==> 0 <= (#[trigger] w.drop_last()[k]).0 < v.len());
        lemma_last_write_wins(v, w.drop_last(), i);
        assert(w[w.len() - 1] == w.last());
    }
}

/// Two distinct cells that share a word sit in distinct lanes.
proof fn lemma_same_word_distinct_lanes(idx: int, k: int, ipu: int)
    by (nonlinear_arith)
    requires
        ipu > 0,
        0 <= k,
        0 <= idx,
        k != idx,
        k / ipu == idx / ipu,
    ensures
        k % ipu != idx % ipu,
        0 <= k % ipu < ipu,
        0 <= idx % ipu < ipu,
{
}

/// Division of a cell index by the lanes-per-word count stays within the
/// word buffer.
proof fn lemma_cell_word_bounds(idx: int, ipu: int, wlen: int)
    by (nonlinear_arith)
    requires
        ipu > 0,
        0 <= idx,
        idx < wlen * ipu,
    ensures
        0 <= idx / ipu < wlen,
        0 <= idx % ipu < ipu,
{
}

/// A fresh 16-slot cache whose one occupied slot maps air to palette entry 0,
/// placed where a probe for state 0 starts.
fn empty_cache(random: u16) -> (r: Vec<(u16, u16)>)
    ensures
        r@.len() == 16,
        forall|s: int|
            0 <= s < 16 && (#[trigger] r@[s]).1 != CACHE_EMPTY ==> r@[s].1 == 0 && r@[s].0 == 0,
{
    let mut cache: Vec<(u16, u16)> = Vec::new();
    while cache.len() < 16
        invariant
            cache@.len() <= 16,
            forall|s: int| 0 <= s < cache@.len() ==> (#[trigger] cache@[s]).1 == CACHE_EMPTY,
        decreases 16 - cache.len(),
    {
        cache.push((0, CACHE_EMPTY));
    }
    let slot = ((0u16 ^ random) as usize) % 16;
    cache[slot] = (0, 0);
    cache
}

/// Relies on `web_time::SystemTime::now` (the system clock of `std::time` on
/// native targets): the nanoseconds since the epoch, or `None` when the clock
/// reads before the epoch. Nothing is promised of the value.
#[verifier::external_body]
fn clock_nanos() -> (r: Option<u64>) {
    match web_time::SystemTime::now().duration_since(web_time::UNIX_EPOCH) {
        Ok(d) => Some(d.as_nanos() as u64),
        Err(_) => None,
    }
}

/// A scrambled 16-bit value derived from the clock, used to vary the probe
/// order of the state cache between instances.
pub fn init_random_state() -> u16 {
    let seed: u64 = match clock_nanos() {
        Some(n) => n % 0x1_0000_0000,
        None => 3753857837,
    };
    let r = seed * 3094417873 + 177818209;
    let folded = (r >> 16) ^ r;
    (folded % 0x1_0000) as u16
}

} // verus!
