//! Lookup table from region origin to region, built on a perfect hash.
//!
//! Every voxel access consults this table, while insertions and removals are
//! rare, so the table keeps a bucket array addressed by `(magic * key) >>
//! shift` and rebuilds it with fresh multipliers whenever two origins
//! collide. A lookup is then one multiply, one shift, one compare.
//!
//! A rebuild draws multipliers from a deterministic generator until every
//! region lands in its own bucket. If a bounded number of draws all fail --
//! which does not happen for realistic region sets -- the table is left
//! empty and marked imperfect, and lookups fall back to a scan of the region
//! list; correctness is never at stake.

use vstd::prelude::*;
use vstd::map::*;
use crate::ivec::IVec2;
use crate::region::Region;

verus! {

/// The canonical key of a region origin: the x coordinate in the upper 32
/// bits, the z coordinate in the lower 32.
pub open spec fn spec_key(x: i32, z: i32) -> u64 {
    (((x as u64) << 32u64) | (z as u32 as u64)) as u64
}

/// The key of the region's own origin.
pub open spec fn region_key(r: Region) -> u64 {
    spec_key(r.spec_min().x, r.spec_min().z)
}

/// Combine an origin's coordinates into its canonical key.
pub fn to_key(origin: IVec2) -> (r: u64)
    ensures
        r == spec_key(origin.x, origin.y),
{
    ((origin.x as u64) << 32u64) | (origin.y as u32 as u64)
}

/// Distinct origins have distinct keys.
pub proof fn lemma_key_injective(x1: i32, z1: i32, x2: i32, z2: i32)
    by (bit_vector)
    requires
        spec_key(x1, z1) == spec_key(x2, z2),
    ensures
        x1 == x2,
        z1 == z2,
{
}

/// An origin whose coordinates are multiples of 512 (their low nine bits
/// clear) never produces the empty-bucket sentinel key.
pub proof fn lemma_aligned_key_not_sentinel(x: i32, z: i32)
    by (bit_vector)
    requires
        (x as u32) & 511u32 == 0,
        (z as u32) & 511u32 == 0,
    ensures
        spec_key(x, z) != 0xFFFF_FFFF_FFFF_FFFFu64,
{
}

/// The bucket of `key` under the table's hash parameters.
pub open spec fn spec_hash64(magic: u64, shift: u32, key: u64) -> u64 {
    (((magic as int) * (key as int)) as u64) >> (shift as u64)
}

/// With `len == 2^(64 - shift)` buckets, every hash is in range, whatever
/// the multiplier.
proof fn lemma_hash_in_range(magic: u64, shift: u32, len: u64)
    by (bit_vector)
    requires
        32 <= shift <= 63,
        len == 1u64 << ((64 - shift) as u64),
    ensures
        forall|k: u64| #[trigger] spec_hash64(magic, shift, k) < len,
{
}

/// With a zero multiplier every key hashes to bucket zero.
proof fn lemma_zero_magic(shift: u32)
    by (bit_vector)
    ensures
        forall|k: u64| #[trigger] spec_hash64(0u64, shift, k) == 0u64,
{
}

/// Whether some region in `s` has key `k`.
pub open spec fn has_key(s: Seq<Region>, k: u64) -> bool {
    exists|i: int| 0 <= i < s.len() && region_key(s[i]) == k
}

/// The index of the region with key `k` in `s`.
pub open spec fn key_index(s: Seq<Region>, k: u64) -> int {
    choose|i: int| 0 <= i < s.len() && region_key(s[i]) == k
}

/// The regions of `s` as a map from key to region.
pub open spec fn regions_view(s: Seq<Region>) -> Map<u64, Region> {
    Map::new(|k: u64| has_key(s, k), |k: u64| s[key_index(s, k)])
}

/// Pairwise-distinct region keys.
pub open spec fn distinct_keys(s: Seq<Region>) -> bool {
    forall|i: int, j: int| 0 <= i < j < s.len() ==> region_key(s[i]) != region_key(s[j])
}

/// The sentinel key marking an unused bucket. Region origins are multiples
/// of 512 and never produce it.
pub const EMPTY_KEY: u64 = 0xFFFF_FFFF_FFFF_FFFF;

/// One slot of the hash table: the key of the region it holds and that
/// region's position in the dense region list.
#[derive(Copy, Clone)]
struct Bucket {
    key: u64,
    idx: usize,
}

/// Lookup table for regions by origin.
pub struct Regions {
    /// Dense list of the owned regions, in insertion order, with removals
    /// filled from the end.
    regions: Vec<Region>,
    /// The hash table; `EMPTY_KEY` marks an unused bucket.
    buckets: Vec<Bucket>,
    /// Hash shift: buckets number `2^(64 - shift)`.
    shift: u32,
    /// Hash multiplier.
    magic: u64,
    /// State of the multiplier generator, kept across rebuilds so repeated
    /// rebuilds do not repeat sequences.
    state: u64,
    /// Whether every region is reachable through its bucket. Only a rebuild
    /// that exhausts its draws clears this; lookups then scan.
    perfect: bool,
}

impl View for Regions {
    type V = Map<u64, Region>;

    closed spec fn view(&self) -> Map<u64, Region> {
        regions_view(self.regions@)
    }
}

impl Regions {
    /// Structural invariant: buckets are sound (an occupied bucket sits at
    /// its key's hash and points at the region with that key), keys are
    /// distinct and never the sentinel, and, while `perfect` holds, every
    /// region is reachable through its bucket.
    pub closed spec fn wf(&self) -> bool {
        &&& 1 <= self.buckets@.len()
    &&& self.buckets@.len() <= 0x1_0000_0000
    &&& self.shift <= 63
    &&& forall|k: u64| (#[trigger] spec_hash64(self.magic, self.shift, k)) < self.buckets@.len()
    &&& distinct_keys(self.regions@)
    &&& forall|i: int|
            0 <= i < self.regions@.len() ==> region_key(#[trigger] self.regions@[i]) != EMPTY_KEY
    &&& forall|b: int|
            0 <= b < self.buckets@.len() && (#[trigger] self.buckets@[b]).key != EMPTY_KEY ==> {
                &&& self.buckets@[b].idx < self.regions@.len()
                &&& region_key(self.regions@[self.buckets@[b].idx as int]) == self.buckets@[b].key
                &&& spec_hash64(self.magic, self.shift, self.buckets@[b].key) == b
            }
    &&& self.perfect ==> forall|i: int|
            0 <= i < self.regions@.len() ==> {
                let k = region_key(#[trigger] self.regions@[i]);
                let b = spec_hash64(self.magic, self.shift, k) as int;
                self.buckets@[b].key == k && self.buckets@[b].idx == i
            }
    }

    /// An empty table.
    pub fn new() -> (r: Regions)
        ensures
            r.wf(),
            r@ == Map::<u64, Region>::empty(),
    {
        let mut buckets: Vec<Bucket> = Vec::new();
        buckets.push(Bucket { key: EMPTY_KEY, idx: 0 });
        let r = Regions {
            regions: Vec::new(),
            buckets,
            shift: 63,
            magic: 0,
            state: 0xda3e_39cb_94b9_5bdb,
            perfect: true,
        };
        proof {
            lemma_zero_magic(63);
            assert(r@ =~= Map::<u64, Region>::empty());
        }
        r
    }

    /// The region whose origin is `origin`, if the table holds one.
    pub fn get(&self, origin: IVec2) -> (r: Option<&Region>)
        requires
            self.wf(),
            spec_key(origin.x, origin.y) != EMPTY_KEY,
        ensures
            match r {
                Some(rr) => self@.contains_key(spec_key(origin.x, origin.y)) && *rr == self@[
                    spec_key(origin.x, origin.y)
                ],
                None => !self@.contains_key(spec_key(origin.x, origin.y)),
            },
    {
        let key = to_key(origin);
        let h = self.hash(key);
        let b = self.buckets[h];
        if b.key == key {
            proof {
                lemma_key_index_of(self.regions@, b.idx as int);
            }
            Some(&self.regions[b.idx])
        } else if self.perfect {
            proof {
                if self@.contains_key(key) {
                    let i = key_index(self.regions@, key);
                    assert(region_key(self.regions@[i]) == key);
                    assert(false);
                }
            }
            None
        } else {
            match self.find_index(key) {
                Some(i) => {
                    proof {
                        lemma_key_index_of(self.regions@, i as int);
                    }
                    Some(&self.regions[i])
                },
                None => None,
            }
        }
    }

    /// Whether the table holds a region with origin `origin`.
    pub fn has_region(&self, origin: IVec2) -> (r: bool)
        requires
            self.wf(),
            spec_key(origin.x, origin.y) != EMPTY_KEY,
        ensures
            r == self@.contains_key(spec_key(origin.x, origin.y)),
    {
        match self.get(origin) {
            Some(_) => true,
            None => false,
        }
    }

    /// Mutable access to the region whose origin is `origin`, which must be
    /// present. As long as the caller leaves the region's corner in place,
    /// the table afterwards holds the region as the caller left it.
    pub fn get_mut(&mut self, origin: IVec2) -> (r: &mut Region)
        requires
            old(self).wf(),
            spec_key(origin.x, origin.y) != EMPTY_KEY,
            old(self)@.contains_key(spec_key(origin.x, origin.y)),
        ensures
            *r == old(self)@[spec_key(origin.x, origin.y)],
            region_key(*final(r)) == spec_key(origin.x, origin.y) ==> final(self).wf()
                && final(self)@ == old(self)@.insert(spec_key(origin.x, origin.y), *final(r)),
    {
        let key = to_key(origin);
        let h = self.hash(key);
        let b = self.buckets[h];
        let i: usize = if b.key == key {
            b.idx
        } else {
            proof {
                if self.perfect {
                    let i0 = key_index(self.regions@, key);
                    assert(region_key(self.regions@[i0]) == key);
                    assert(false);
                }
            }
            match self.find_index(key) {
                Some(i) => i,
                None => {
                    proof {
                        let i0 = key_index(self.regions@, key);
                        assert(region_key(self.regions@[i0]) == key);
                        assert(false);
                    }
                    0
                },
            }
        };
        proof {
            lemma_key_index_of(self.regions@, i as int);
        }
        let ghost os = self.regions@;
        proof {
            assert forall|fr: Region| region_key(fr) == key implies {
                &&& distinct_keys(#[trigger] os.update(i as int, fr))
                &&& regions_view(os.update(i as int, fr)) == regions_view(os).insert(key, fr)
                &&& forall|j: int|
                    0 <= j < os.len() ==> region_key(#[trigger] os.update(i as int, fr)[j])
                        == region_key(os[j])
            } by {
                let s2 = os.update(i as int, fr);
                assert forall|j: int|
                    0 <= j < os.len() implies region_key(#[trigger] s2[j]) == region_key(
                    os[j],
                ) by {}
                lemma_view_update(os, s2, i as int);
            }
        }
        let r = &mut self.regions[i];
        r
    }

    /// Insert `region`, returning the region previously stored under the
    /// same origin, if any. A bucket conflict triggers a rebuild.
    pub fn insert(&mut self, region: Region) -> (r: Option<Region>)
        requires
            old(self).wf(),
            region_key(region) != EMPTY_KEY,
        ensures
            final(self).wf(),
            final(self)@ == old(self)@.insert(region_key(region), region),
            match r {
                Some(prev) => old(self)@.contains_key(region_key(region)) && prev == old(self)@[
                    region_key(region)
                ],
                None => !old(self)@.contains_key(region_key(region)),
            },
    {
        let key = to_key(region.origin());
        let h = self.hash(key);
        let b = self.buckets[h];
        if b.key == key {
            // replace the existing region in place
            proof {
                lemma_key_index_of(self.regions@, b.idx as int);
            }
            let ghost os = self.regions@;
            self.regions.push(region);
            let prev = self.regions.swap_remove(b.idx);
            proof {
                assert(self.regions@ =~= os.update(b.idx as int, region));
                lemma_view_update(os, self.regions@, b.idx as int);
            }
            return Some(prev);
        }
        if self.perfect {
            proof {
                if self@.contains_key(key) {
                    let i0 = key_index(self.regions@, key);
                    assert(region_key(self.regions@[i0]) == key);
                    assert(false);
                }
            }
            if b.key == EMPTY_KEY {
                // claim the free bucket
                let ghost os = self.regions@;
                let n = self.regions.len();
                self.buckets[h] = Bucket { key, idx: n };
                self.regions.push(region);
                proof {
                    lemma_view_push(os, region);
                    assert(final(self)@ =~= old(self)@.insert(key, region));
                }
                return None;
            }
        } else {
            match self.find_index(key) {
                Some(i) => {
                    proof {
                        lemma_key_index_of(self.regions@, i as int);
                    }
                    let ghost os = self.regions@;
                    self.regions.push(region);
                    let prev = self.regions.swap_remove(i);
                    proof {
                        assert(self.regions@ =~= os.update(i as int, region));
                        lemma_view_update(os, self.regions@, i as int);
                    }
                    return Some(prev);
                },
                None => {},
            }
        }
        // the origin is new and its bucket is taken (or the table is
        // imperfect): append and rebuild
        let ghost os = self.regions@;
        self.regions.push(region);
        proof {
            lemma_view_push(os, region);
        }
        self.rebuild();
        proof {
            assert(final(self)@ =~= old(self)@.insert(key, region));
        }
        None
    }

    /// Remove and return the region whose origin is `origin`, if present.
    /// Never rebuilds: the last region fills the hole and its bucket is
    /// patched.
    pub fn remove(&mut self, origin: IVec2) -> (r: Option<Region>)
        requires
            old(self).wf(),
            spec_key(origin.x, origin.y) != EMPTY_KEY,
        ensures
            final(self).wf(),
            final(self)@ == old(self)@.remove(spec_key(origin.x, origin.y)),
            match r {
                Some(prev) => old(self)@.contains_key(spec_key(origin.x, origin.y)) && prev == old(
                    self,
                )@[spec_key(origin.x, origin.y)],
                None => !old(self)@.contains_key(spec_key(origin.x, origin.y)),
            },
    {
        let key = to_key(origin);
        let h = self.hash(key);
        let b = self.buckets[h];
        let idx: usize = if b.key == key {
            self.buckets[h] = Bucket { key: EMPTY_KEY, idx: 0 };
            b.idx
        } else {
            if self.perfect {
                proof {
                    if self@.contains_key(key) {
                        let i0 = key_index(self.regions@, key);
                        assert(region_key(self.regions@[i0]) == key);
                        assert(false);
                    }
                    assert(self@ =~= self@.remove(key));
                }
                return None;
            }
            match self.find_index(key) {
                Some(i) => {
                    proof {
                        // no bucket can hold this key: it would sit at `h`
                        assert forall|b2: int|
                            0 <= b2 < self.buckets@.len() implies (#[trigger] self.buckets@[b2]).key
                            != key by {}
                    }
                    i
                },
                None => {
                    proof {
                        assert(self@ =~= self@.remove(key));
                    }
                    return None;
                },
            }
        };
        proof {
            lemma_key_index_of(self.regions@, idx as int);
        }
        let ghost os = self.regions@;
        let ghost obuckets = self.buckets@;
        let removed = self.regions.swap_remove(idx);
        if idx < self.regions.len() {
            // a region moved from the end into the hole: patch its bucket
            let moved_key = to_key(self.regions[idx].origin());
            let hm = self.hash(moved_key);
            if self.buckets[hm].key == moved_key {
                self.buckets[hm] = Bucket { key: moved_key, idx };
            }
        }
        proof {
            self.lemma_remove_ok(*old(self), os, obuckets, key, h as int, idx as int);
        }
        Some(removed)
    }

    /// The bucket of `key`.
    fn hash(&self, key: u64) -> (r: usize)
        requires
            self.shift <= 63,
            self.buckets@.len() <= 0x1_0000_0000,
            forall|k: u64| (#[trigger] spec_hash64(self.magic, self.shift, k)) < self.buckets@.len(),
        ensures
            r == spec_hash64(self.magic, self.shift, key),
            r < self.buckets@.len(),
    {
        proof {
            assert((self.magic as u128) * (key as u128) <= 0xFFFF_FFFF_FFFF_FFFF_FFFF_FFFF_FFFF_FFFFu128)
                by (nonlinear_arith)
                requires
                    self.magic <= 0xFFFF_FFFF_FFFF_FFFFu64,
                    key <= 0xFFFF_FFFF_FFFF_FFFFu64,
            ;
        }
        let prod = ((self.magic as u128) * (key as u128)) as u64;
        proof {
            assert(prod == ((self.magic as int) * (key as int)) as u64);
            assert(spec_hash64(self.magic, self.shift, key) < self.buckets@.len());
        }
        let sh = self.shift as u64;
        let r2 = (prod >> sh) as usize;
        proof {
            assert(prod >> sh == spec_hash64(self.magic, self.shift, key));
            assert(prod >> sh < self.buckets@.len());
            assert(r2 == prod >> sh);
        }
        r2
    }

    /// Scan the region list for the region with key `key`.
    fn find_index(&self, key: u64) -> (r: Option<usize>)
        ensures
            match r {
                Some(i) => i < self.regions@.len() && region_key(self.regions@[i as int]) == key,
                None => !has_key(self.regions@, key),
            },
    {
        let n = self.regions.len();
        let mut i: usize = 0;
        while i < n
            invariant
                i <= n,
                n == self.regions@.len(),
                forall|j: int| 0 <= j < i ==> region_key(#[trigger] self.regions@[j]) != key,
            decreases n - i,
        {
            if to_key(self.regions[i].origin()) == key {
                return Some(i);
            }
            i += 1;
        }
        None
    }

    /// Rebuild the bucket table for the current region list, drawing fresh
    /// multipliers until every region lands in a bucket of its own. If a
    /// bounded number of draws fails, the table is left empty and imperfect.
    fn rebuild(&mut self)
        requires
            distinct_keys(old(self).regions@),
            forall|i: int|
                0 <= i < old(self).regions@.len() ==> region_key(
                    #[trigger] old(self).regions@[i],
                ) != EMPTY_KEY,
        ensures
            final(self).wf(),
            final(self).regions == old(self).regions,
    {
        let n = self.regions.len();
        if n == 0 {
            self.buckets = empty_buckets(1);
            self.magic = 0;
            self.shift = 63;
            self.perfect = true;
            proof {
                lemma_zero_magic(63);
            }
            return ;
        }
        if n == 1 {
            let key = to_key(self.regions[0].origin());
            let mut buckets: Vec<Bucket> = Vec::new();
            buckets.push(Bucket { key, idx: 0 });
            self.buckets = buckets;
            self.magic = 0;
            self.shift = 63;
            self.perfect = true;
            proof {
                lemma_zero_magic(63);
            }
            return ;
        }
        // The bucket count is the least power of two holding half again as
        // many slots as there are regions (capped for enormous counts).
        let target: usize = if n <= 0x4000_0000 {
            n + n / 2
        } else {
            0x6000_0000
        };
        let mut size: usize = 4;
        let mut shift: u32 = 62;
        proof {
            assert(1u64 << ((64 - 62u32) as u64) == 4) by (bit_vector);
        }
        while size < target
            invariant
                33 <= shift <= 62,
                size as u64 == 1u64 << ((64 - shift) as u64),
                4 <= size,
                size < 0x1_0000_0000,
                target <= 0x6000_0000,
            decreases shift,
        {
            proof {
                assert(1u64 << ((64 - shift) as u64) < 0x6000_0000 ==> shift >= 34) by (bit_vector)
                    requires
                        33 <= shift <= 62,
                ;
                assert((1u64 << ((64 - (shift - 1)) as u64)) == 2 * (1u64 << ((64 - shift) as u64))
                    && (1u64 << ((64 - shift) as u64)) >= 4) by (bit_vector)
                    requires
                        34 <= shift <= 62,
                ;
            }
            size = size * 2;
            shift = shift - 1;
        }
        self.shift = shift;
        let mut attempts: usize = 0;
        while attempts < 1000
            invariant
                old(self).regions == self.regions,
                n == self.regions@.len(),
                2 <= n,
                32 <= shift <= 62,
                self.shift == shift,
                size as u64 == 1u64 << ((64 - shift) as u64),
                4 <= size,
                size < 0x1_0000_0000,
                distinct_keys(self.regions@),
                forall|i: int|
                    0 <= i < self.regions@.len() ==> region_key(#[trigger] self.regions@[i])
                        != EMPTY_KEY,
            decreases 1000 - attempts,
        {
            // one WyRand-style draw
            self.state = ((self.state as u128 + 0xa076_1d64_78bd_642fu128) as u64);
            let s = self.state;
            proof {
                assert((s as u128) * ((s ^ 0xe703_7ed1_a0b4_28dbu64) as u128)
                    <= 0xFFFF_FFFF_FFFF_FFFF_FFFF_FFFF_FFFF_FFFFu128) by (nonlinear_arith)
                    requires
                        s <= 0xFFFF_FFFF_FFFF_FFFFu64,
                        (s ^ 0xe703_7ed1_a0b4_28dbu64) <= 0xFFFF_FFFF_FFFF_FFFFu64,
                ;
            }
            let x = ((s as u128) * ((s ^ 0xe703_7ed1_a0b4_28dbu64) as u128));
            self.magic = ((x >> 64) ^ x) as u64;
            proof {
                lemma_hash_in_range(self.magic, shift, size as u64);
            }
            let mut buckets = empty_buckets(size);
            let mut ok = true;
            let mut i: usize = 0;
            while i < n && ok
                invariant
                    old(self).regions == self.regions,
                    n == self.regions@.len(),
                    i <= n,
                    self.shift == shift,
                    32 <= shift <= 62,
                    size <= 0x1_0000_0000,
                    buckets@.len() == size,
                    distinct_keys(self.regions@),
                    forall|i2: int|
                        0 <= i2 < self.regions@.len() ==> region_key(#[trigger] self.regions@[i2])
                            != EMPTY_KEY,
                    forall|k: u64| (#[trigger] spec_hash64(self.magic, self.shift, k)) < size,
                    forall|b: int|
                        0 <= b < buckets@.len() && (#[trigger] buckets@[b]).key != EMPTY_KEY ==> {
                            &&& buckets@[b].idx < n
                            &&& region_key(self.regions@[buckets@[b].idx as int]) == buckets@[b].key
                            &&& spec_hash64(self.magic, self.shift, buckets@[b].key) == b
                        },
                    ok ==> forall|j: int|
                        0 <= j < i ==> {
                            let k = region_key(#[trigger] self.regions@[j]);
                            let b = spec_hash64(self.magic, self.shift, k) as int;
                            buckets@[b].key == k && buckets@[b].idx == j
                        },
                decreases n - i,
            {
                let key = to_key(self.regions[i].origin());
                let h = self.hash_with(shift, key, size);
                if buckets[h].key == EMPTY_KEY {
                    buckets[h] = Bucket { key, idx: i };
                } else {
                    ok = false;
                }
                i += 1;
            }
            if ok {
                self.buckets = buckets;
                self.perfect = true;
                return ;
            }
            attempts += 1;
        }
        // Statistically unreachable: no draw separated the origins. Leave
        // the table imperfect; lookups scan.
        self.buckets = empty_buckets(size);
        self.perfect = false;
        proof {
            lemma_hash_in_range(self.magic, shift, size as u64);
        }
    }

    /// The bucket of `key` under explicit parameters (used while the table
    /// is being rebuilt).
    fn hash_with(&self, shift: u32, key: u64, size: usize) -> (r: usize)
        requires
            self.shift == shift,
            shift <= 63,
            size <= 0x1_0000_0000,
            forall|k: u64| (#[trigger] spec_hash64(self.magic, self.shift, k)) < size,
        ensures
            r == spec_hash64(self.magic, self.shift, key),
            r < size,
    {
        proof {
            assert((self.magic as u128) * (key as u128) <= 0xFFFF_FFFF_FFFF_FFFF_FFFF_FFFF_FFFF_FFFFu128)
                by (nonlinear_arith)
                requires
                    self.magic <= 0xFFFF_FFFF_FFFF_FFFFu64,
                    key <= 0xFFFF_FFFF_FFFF_FFFFu64,
            ;
        }
        let prod = ((self.magic as u128) * (key as u128)) as u64;
        proof {
            assert(prod == ((self.magic as int) * (key as int)) as u64);
            assert(spec_hash64(self.magic, self.shift, key) < size);
        }
        let sh = shift as u64;
        (prod >> sh) as usize
    }

    /// Restore the invariant after a removal: `key` sat at bucket `h` (now
    /// cleared) or in no bucket; `idx` was removed by swap-remove and the
    /// moved region's bucket, if it had one, was patched.
    proof fn lemma_remove_ok(
        &self,
        orig: Regions,
        os: Seq<Region>,
        obuckets: Seq<Bucket>,
        key: u64,
        h: int,
        idx: int,
    )
        requires
            orig.wf(),
            os == orig.regions@,
            0 <= idx < os.len(),
            region_key(os[idx]) == key,
            spec_hash64(orig.magic, orig.shift, key) == h,
            obuckets.len() == orig.buckets@.len(),
            // the bucket that held `key`, if any, was cleared; others kept
            forall|b2: int|
                0 <= b2 < obuckets.len() && b2 != h ==> obuckets[b2] == orig.buckets@[b2],
            obuckets[h].key == EMPTY_KEY || obuckets[h] == orig.buckets@[h],
            obuckets[h].key != key,
            forall|b2: int|
                0 <= b2 < obuckets.len() ==> (#[trigger] obuckets[b2]).key != key,
            self.magic == orig.magic,
            self.shift == orig.shift,
            self.perfect == orig.perfect,
            self.regions@ == os.update(idx, os.last()).drop_last(),
            self.buckets@.len() == obuckets.len(),
            // the moved region's bucket was patched if it matched
            idx < self.regions@.len() ==> {
                let mk = region_key(os.last());
                let hm = spec_hash64(orig.magic, orig.shift, mk) as int;
                &&& (obuckets[hm].key == mk ==> self.buckets@ == obuckets.update(
                    hm,
                    Bucket { key: mk, idx: idx as usize },
                ))
                &&& (obuckets[hm].key != mk ==> self.buckets@ == obuckets)
            },
            idx == self.regions@.len() ==> self.buckets@ == obuckets,
        ensures
            self.wf(),
            self@ == regions_view(os).remove(key),
    {
        let s2 = self.regions@;
        let n = os.len();
        assert(s2.len() == n - 1);
        assert forall|i: int| 0 <= i < n - 1 && i != idx implies s2[i] == os[i] by {}
        assert(idx < n - 1 ==> s2[idx] == os[n - 1]);
        // distinctness and non-sentinel keys carry over
        assert(distinct_keys(s2)) by {
            assert forall|i: int, j: int| 0 <= i < j < s2.len() implies region_key(s2[i])
                != region_key(s2[j]) by {}
        }
        // the view is the old view minus `key`
        assert(self@ =~= regions_view(os).remove(key)) by {
            assert forall|k: u64| #[trigger] has_key(s2, k) implies has_key(os, k) && k != key by {
                let i = choose|i: int| 0 <= i < s2.len() && region_key(s2[i]) == k;
                if i == idx && idx < n - 1 {
                    assert(region_key(os[n - 1]) == k);
                } else {
                    assert(region_key(os[i]) == k);
                }
                if k == key {
                    lemma_key_index_of(os, idx);
                    if i == idx && idx < n - 1 {
                        assert(os[n - 1] == os[idx]);
                        assert(false);
                    } else {
                        assert(os[i] == os[idx]);
                        assert(false);
                    }
                }
            }
            assert forall|k: u64| has_key(os, k) && k != key implies #[trigger] has_key(s2, k)
                && regions_view(s2)[k] == regions_view(os)[k] by {
                let i = key_index(os, k);
                assert(region_key(os[i]) == k);
                assert(i != idx);
                if i == n - 1 {
                    assert(idx < n - 1);
                    assert(s2[idx] == os[i]);
                    assert(region_key(s2[idx]) == k);
                    lemma_key_index_of(s2, idx);
                } else {
                    assert(s2[i] == os[i]);
                    lemma_key_index_of(s2, i);
                }
                lemma_key_index_of(os, i);
            }
        }
        // bucket soundness
        assert forall|b: int|
            0 <= b < self.buckets@.len() && (#[trigger] self.buckets@[b]).key != EMPTY_KEY implies {
            &&& self.buckets@[b].idx < s2.len()
            &&& region_key(s2[self.buckets@[b].idx as int]) == self.buckets@[b].key
            &&& spec_hash64(self.magic, self.shift, self.buckets@[b].key) == b
        } by {
            let bk = self.buckets@[b].key;
            let bi = self.buckets@[b].idx as int;
            if idx < s2.len() {
                let mk = region_key(os.last());
                let hm = spec_hash64(orig.magic, orig.shift, mk) as int;
                if obuckets[hm].key == mk && b == hm {
                    // the patched bucket
                    assert(region_key(s2[idx]) == mk);
                } else {
                    assert(self.buckets@[b] == obuckets[b]);
                    assert(obuckets[b] == orig.buckets@[b]);
                    assert(bi < n && region_key(os[bi]) == bk);
                    assert(bk != key);
                    assert(bi != idx);
                    if bi == n - 1 {
                        // this bucket held the moved region's key, so it is
                        // exactly the patched bucket
                        assert(bk == mk);
                        assert(spec_hash64(orig.magic, orig.shift, bk) == b);
                        assert(obuckets[hm].key == mk);
                        assert(false);
                    }
                }
            } else {
                // the last region itself was removed
                assert(self.buckets@[b] == obuckets[b]);
                assert(obuckets[b] == orig.buckets@[b]);
                assert(self.buckets@[b].idx < n && region_key(os[bi]) == bk);
                assert(bk != key);
                assert(bi != idx);
            }
        }
        // completeness while perfect
        if self.perfect {
            assert forall|i: int| 0 <= i < s2.len() implies {
                let k = region_key(#[trigger] s2[i]);
                let b = spec_hash64(self.magic, self.shift, k) as int;
                self.buckets@[b].key == k && self.buckets@[b].idx == i
            } by {
                let k = region_key(s2[i]);
                let b = spec_hash64(self.magic, self.shift, k) as int;
                if i == idx && idx < n - 1 {
                    // the moved region: its bucket was patched
                    assert(k == region_key(os.last()));
                    assert(orig.buckets@[b].key == k && orig.buckets@[b].idx == n - 1);
                    assert(b != h);
                    assert(obuckets[b].key == k);
                } else {
                    assert(k == region_key(os[i]));
                    assert(orig.buckets@[b].key == k && orig.buckets@[b].idx == i);
                    assert(b != h);
                    assert(obuckets[b] == orig.buckets@[b]);
                    if idx < s2.len() {
                        let mk = region_key(os.last());
                        let hm = spec_hash64(orig.magic, orig.shift, mk) as int;
                        if obuckets[hm].key == mk && b == hm {
                            assert(k == mk);
                            assert(i == n - 1);
                            assert(false);
                        }
                    }
                }
            }
        }
    }
}

impl Default for Regions {
    /// An empty table.
    fn default() -> (r: Regions)
        ensures
            r.wf(),
            r@ == Map::<u64, Region>::empty(),
    {
        Regions::new()
    }
}

/// A bucket array of `size` unused slots.
fn empty_buckets(size: usize) -> (r: Vec<Bucket>)
    requires
        size >= 1,
    ensures
        r@.len() == size,
        forall|b: int| 0 <= b < size ==> (#[trigger] r@[b]).key == EMPTY_KEY,
{
    let mut buckets: Vec<Bucket> = Vec::new();
    while buckets.len() < size
        invariant
            buckets@.len() <= size,
            forall|b: int| 0 <= b < buckets@.len() ==> (#[trigger] buckets@[b]).key == EMPTY_KEY,
        decreases size - buckets.len(),
    {
        buckets.push(Bucket { key: EMPTY_KEY, idx: 0 });
    }
    buckets
}

/// After an insert, the inserted origin resolves to the inserted region
/// and every other origin resolves exactly as before.
pub proof fn lemma_insert_frame(m1: Map<u64, Region>, m2: Map<u64, Region>, r: Region)
    requires
        m2 == m1.insert(region_key(r), r),
    ensures
        m2.contains_key(region_key(r)),
        m2[region_key(r)] == r,
        forall|k: u64|
            k != region_key(r) ==> (#[trigger] m2.contains_key(k)) == m1.contains_key(k) && (
            m1.contains_key(k) ==> m2[k] == m1[k]),
{
}

/// After a removal, the removed origin no longer resolves and every other
/// previously inserted region still resolves to the same region.
pub proof fn lemma_remove_frame(m1: Map<u64, Region>, m2: Map<u64, Region>, o: u64)
    requires
        m2 == m1.remove(o),
    ensures
        !m2.contains_key(o),
        forall|k: u64|
            k != o ==> (#[trigger] m2.contains_key(k)) == m1.contains_key(k) && (m1.contains_key(
                k,
            ) ==> m2[k] == m1[k]),
{
}

/// A region stored under key `k` has key `k`.
pub proof fn lemma_view_key(m: &Regions, k: u64)
    requires
        m.wf(),
        m@.contains_key(k),
    ensures
        region_key(m@[k]) == k,
{
    lemma_key_index_of(m.regions@, key_index(m.regions@, k));
}

/// If `s` has distinct keys and position `i` holds key `k`, then `i` is the
/// key's index and lookups of `k` in the view yield `s[i]`.
proof fn lemma_key_index_of(s: Seq<Region>, i: int)
    requires
        distinct_keys(s),
        0 <= i < s.len(),
    ensures
        has_key(s, region_key(s[i])),
        key_index(s, region_key(s[i])) == i,
        regions_view(s).contains_key(region_key(s[i])),
        regions_view(s)[region_key(s[i])] == s[i],
{
    let k = region_key(s[i]);
    assert(has_key(s, k));
    let j = key_index(s, k);
    assert(0 <= j < s.len() && region_key(s[j]) == k);
    if j != i {
        assert(false);
    }
}

/// Replacing the region at `i` by one with the same key replaces that key's
/// value in the view.
proof fn lemma_view_update(s1: Seq<Region>, s2: Seq<Region>, i: int)
    requires
        distinct_keys(s1),
        0 <= i < s1.len(),
        s2 == s1.update(i, s2[i]),
        s2.len() == s1.len(),
        region_key(s2[i]) == region_key(s1[i]),
    ensures
        distinct_keys(s2),
        regions_view(s2) == regions_view(s1).insert(region_key(s1[i]), s2[i]),
{
    let k = region_key(s1[i]);
    assert(distinct_keys(s2)) by {
        assert forall|a: int, b: int| 0 <= a < b < s2.len() implies region_key(s2[a])
            != region_key(s2[b]) by {
            assert(region_key(s2[a]) == region_key(s1[a]));
            assert(region_key(s2[b]) == region_key(s1[b]));
        }
    }
    assert(regions_view(s2) =~= regions_view(s1).insert(k, s2[i])) by {
        assert forall|k2: u64| #[trigger] has_key(s2, k2) implies has_key(s1, k2) by {
            let j = choose|j: int| 0 <= j < s2.len() && region_key(s2[j]) == k2;
            assert(region_key(s1[j]) == k2);
        }
        assert forall|k2: u64| #[trigger] has_key(s1, k2) implies has_key(s2, k2) by {
            let j = choose|j: int| 0 <= j < s1.len() && region_key(s1[j]) == k2;
            assert(region_key(s2[j]) == k2);
        }
        assert forall|k2: u64| has_key(s2, k2) implies regions_view(s2)[k2] == regions_view(
            s1,
        ).insert(k, s2[i])[k2] by {
            lemma_key_index_of(s2, key_index(s2, k2));
            if k2 == k {
                lemma_key_index_of(s2, i);
            } else {
                let j = key_index(s2, k2);
                assert(region_key(s2[j]) == k2);
                assert(j != i);
                assert(s2[j] == s1[j]);
                lemma_key_index_of(s1, j);
            }
        }
    }
}

/// Appending a region with a fresh key adds that key to the view.
proof fn lemma_view_push(s1: Seq<Region>, r: Region)
    requires
        distinct_keys(s1),
        !has_key(s1, region_key(r)),
    ensures
        distinct_keys(s1.push(r)),
        regions_view(s1.push(r)) == regions_view(s1).insert(region_key(r), r),
{
    let s2 = s1.push(r);
    let k = region_key(r);
    assert(s2[s1.len() as int] == r);
    assert(distinct_keys(s2)) by {
        assert forall|a: int, b: int| 0 <= a < b < s2.len() implies region_key(s2[a])
            != region_key(s2[b]) by {
            if b < s1.len() {
                assert(s2[a] == s1[a] && s2[b] == s1[b]);
            } else {
                assert(s2[a] == s1[a] && s2[b] == r);
                if region_key(s1[a]) == k {
                    assert(has_key(s1, k));
                    assert(false);
                }
            }
        }
    }
    assert(regions_view(s2) =~= regions_view(s1).insert(k, r)) by {
        assert forall|k2: u64| #[trigger] has_key(s2, k2) implies has_key(s1, k2) || k2 == k by {
            let j = choose|j: int| 0 <= j < s2.len() && region_key(s2[j]) == k2;
            if j < s1.len() {
                assert(region_key(s1[j]) == k2);
            }
        }
        assert forall|k2: u64| #[trigger] has_key(s1, k2) implies has_key(s2, k2) by {
            let j = choose|j: int| 0 <= j < s1.len() && region_key(s1[j]) == k2;
            assert(region_key(s2[j]) == k2);
        }
        assert(has_key(s2, k)) by {
            assert(region_key(s2[s1.len() as int]) == k);
        }
        assert forall|k2: u64| has_key(s2, k2) implies regions_view(s2)[k2] == regions_view(
            s1,
        ).insert(k, r)[k2] by {
            lemma_key_index_of(s2, key_index(s2, k2));
            if k2 == k {
                lemma_key_index_of(s2, s1.len() as int);
            } else {
                let j = key_index(s2, k2);
                assert(region_key(s2[j]) == k2);
                assert(j != s1.len() as int);
                assert(s2[j] == s1[j]);
                lemma_key_index_of(s1, j);
            }
        }
    }
}

} // verus!
