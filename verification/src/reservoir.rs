//! Bounded per-point reservoirs of graph edges.
//!
//! Every point owns a slot that keeps at most one candidate per hash bucket, the closest one that
//! was offered, and at most `l_max` buckets in all. Once a slot is full, a closer candidate of a
//! new bucket takes the place of the farthest one. All slots share three contiguous slabs.

use crate::measure::{row_bounds, rows_apart};
use crate::number::Real;
use crate::sort::{argsort, argsort_ascending, before, positions, sort_positions};
use vstd::prelude::*;

verus! {

/// Largest number of entries that a slot can be asked to keep.
pub const L_MAX_MAX: usize = 128;

/// Width of one vector scan over a slot.
pub const SCAN_WIDTH: usize = 32;

/// One kept edge: the bucket of the candidate, its distance cut down to sixteen bits, and its id.
#[derive(Clone, Copy, Debug, PartialEq, Eq, Structural)]
pub struct Kept {
    pub hash: u16,
    pub dist: u16,
    pub neighbor: u32,
}

/// What a slot holds: its entries in storage order, and the entry that leaves next.
pub struct SlotView {
    pub entries: Seq<Kept>,
    pub farthest: int,
}

/// The first entry at the greatest distance (0 where there is none).
pub open spec fn first_farthest(entries: Seq<Kept>) -> int
    decreases entries.len(),
{
    if entries.len() <= 1 {
        0
    } else {
        let i = first_farthest(entries.drop_last());
        if entries.last().dist > entries[i].dist {
            entries.len() - 1
        } else {
            i
        }
    }
}

/// Where the entry of a bucket stands, if the bucket has one.
pub open spec fn bucket_of(entries: Seq<Kept>, hash: u16) -> Option<int> {
    if exists|i: int| 0 <= i < entries.len() && (#[trigger] entries[i]).hash == hash {
        Some(choose|i: int| 0 <= i < entries.len() && (#[trigger] entries[i]).hash == hash)
    } else {
        None
    }
}

/// A slot as the operations leave it: one entry per bucket, no more entries than allowed, and the
/// marked entry is a farthest one.
pub open spec fn slot_valid(s: SlotView, l_max: nat) -> bool {
    &&& s.entries.len() <= l_max
    &&& one_per_bucket(s.entries)
    &&& s.entries.len() == 0 ==> s.farthest == 0
    &&& s.entries.len() > 0 ==> is_farthest(s.entries, s.farthest)
}

/// No two entries share a bucket.
pub open spec fn one_per_bucket(entries: Seq<Kept>) -> bool {
    forall|i: int, j: int|
        0 <= i < j < entries.len() ==> (#[trigger] entries[i]).hash != (#[trigger] entries[j]).hash
}

/// Entry `f` is at least as far as every other.
pub open spec fn is_farthest(entries: Seq<Kept>, f: int) -> bool {
    &&& 0 <= f < entries.len()
    &&& forall|i: int| 0 <= i < entries.len() ==> (#[trigger] entries[i]).dist <= entries[f].dist
}

/// The slot after candidate `e` has been offered to it.
pub open spec fn absorb(s: SlotView, l_max: nat, e: Kept) -> SlotView {
    let full = s.entries.len() >= l_max;
    if full && (s.entries.len() == 0 || e.dist >= s.entries[s.farthest].dist) {
        s
    } else {
        match bucket_of(s.entries, e.hash) {
            Some(i) => if e.dist < s.entries[i].dist {
                let entries = s.entries.update(i, e);
                SlotView {
                    entries,
                    farthest: if i == s.farthest {
                        first_farthest(entries)
                    } else {
                        s.farthest
                    },
                }
            } else {
                s
            },
            None => if !full {
                SlotView {
                    entries: s.entries.push(e),
                    farthest: if s.entries.len() == 0 || e.dist >= s.entries[s.farthest].dist {
                        s.entries.len() as int
                    } else {
                        s.farthest
                    },
                }
            } else {
                let entries = s.entries.update(s.farthest, e);
                SlotView { entries, farthest: first_farthest(entries) }
            },
        }
    }
}

/// A slot that nothing has been offered to.
pub open spec fn empty_slot() -> SlotView {
    SlotView { entries: Seq::empty(), farthest: 0 }
}

/// The slot after a whole history of candidates, offered in order.
pub open spec fn absorb_all(l_max: nat, history: Seq<Kept>) -> SlotView
    decreases history.len(),
{
    if history.len() == 0 {
        empty_slot()
    } else {
        absorb(absorb_all(l_max, history.drop_last()), l_max, history.last())
    }
}

/// Sort keys of the entries of a slot.
pub open spec fn dist_keys(entries: Seq<Kept>) -> Seq<u64> {
    entries.map_values(|k: Kept| k.dist as u64)
}

/// The entries in ascending distance, equal distances in storage order, cut to `max_degree`.
pub open spec fn drained(entries: Seq<Kept>, max_degree: nat) -> Seq<(u32, Real)> {
    let order = argsort(dist_keys(entries));
    let n = if entries.len() <= max_degree { entries.len() } else { max_degree };
    Seq::new(
        n,
        |i: int| (entries[order[i]].neighbor, Real::widened(entries[order[i]].dist)),
    )
}

/// Smallest multiple of the scan width that is not below `n`.
pub open spec fn rounded_up_to_32(n: int) -> int {
    (n + 31) / 32 * 32
}

/// Rounds up to the scan width.
pub fn round_up_to_32(n: usize) -> (r: usize)
    requires
        n <= usize::MAX - 31,
    ensures
        r == rounded_up_to_32(n as int),
        r >= n,
        r % 32 == 0,
        r < n + 32,
{
    (n + 31) / 32 * 32
}

/// The instruction sets that a scan can be written for.
#[derive(Clone, Copy, Debug, PartialEq, Eq, Structural)]
pub enum SimdTier {
    Avx512,
    Avx2,
    Scalar,
}

/// The processor features that decide on the instruction set.
#[derive(Clone, Copy, Debug, PartialEq, Eq, Structural)]
pub struct CpuFeatures {
    pub avx512f: bool,
    pub avx512bw: bool,
    pub avx2: bool,
    pub fma: bool,
    pub f16c: bool,
}

/// Picks the widest instruction set whose features are all present.
pub fn detect_tier(cpu: CpuFeatures) -> (t: SimdTier)
    ensures
        t == SimdTier::Avx512 <==> cpu.avx512f && cpu.avx512bw,
        t == SimdTier::Avx2 <==> !(cpu.avx512f && cpu.avx512bw) && cpu.avx2 && cpu.fma && cpu.f16c,
{
    if cpu.avx512f && cpu.avx512bw {
        return SimdTier::Avx512;
    }
    if cpu.avx2 && cpu.fma && cpu.f16c {
        return SimdTier::Avx2;
    }
    SimdTier::Scalar
}

/// Remembers the outcome of the first detection.
pub fn tier(cell: &mut Option<SimdTier>, cpu: CpuFeatures) -> (t: SimdTier)
    ensures
        *final(cell) == Some(t),
        match *old(cell) {
            Some(known) => t == known,
            None => {
                &&& t == SimdTier::Avx512 <==> cpu.avx512f && cpu.avx512bw
                &&& t == SimdTier::Avx2 <==> !(cpu.avx512f && cpu.avx512bw) && cpu.avx2 && cpu.fma
                    && cpu.f16c
            },
        },
{
    match *cell {
        Some(known) => known,
        None => {
            let t = detect_tier(cpu);
            *cell = Some(t);
            t
        },
    }
}

/// Per-point bookkeeping: how many entries the slot has, and its farthest one.
#[derive(Clone, Copy, Debug, PartialEq, Eq, Structural)]
pub struct HotSlot {
    pub len: u8,
    pub farthest_idx: u8,
    pub farthest_dist: u16,
}

impl HotSlot {
    /// Bookkeeping of an empty slot.
    pub fn new_empty() -> (r: HotSlot)
        ensures
            r == (HotSlot { len: 0, farthest_idx: 0, farthest_dist: 0 }),
    {
        HotSlot { len: 0, farthest_idx: 0, farthest_dist: 0 }
    }
}

/// One reservoir per point, over contiguous slabs.
#[derive(Debug)]
pub struct OnlineHashPrune {
    hot: Vec<HotSlot>,
    cold_hashes: Vec<u16>,
    cold_distances: Vec<u16>,
    cold_neighbors: Vec<u32>,
    scan_lanes: usize,
    l_max: usize,
}

/// Entries `off .. off + len` of three parallel slabs.
spec fn slab_entries(
    hashes: Seq<u16>,
    distances: Seq<u16>,
    neighbors: Seq<u32>,
    off: int,
    len: nat,
) -> Seq<Kept> {
    Seq::new(
        len,
        |i: int|
            Kept {
                hash: hashes[off + i],
                dist: distances[off + i],
                neighbor: neighbors[off + i],
            },
    )
}

pub(crate) proof fn first_farthest_is_farthest(entries: Seq<Kept>)
    requires
        entries.len() > 0,
    ensures
        is_farthest(entries, first_farthest(entries)),
    decreases entries.len(),
{
    if entries.len() > 1 {
        let front = entries.drop_last();
        first_farthest_is_farthest(front);
        let f = first_farthest(entries);
        assert forall|i: int| 0 <= i < entries.len() implies (#[trigger] entries[i]).dist
            <= entries[f].dist by {
            if i < front.len() {
                assert(front[i].dist <= front[first_farthest(front)].dist);
            }
        }
    }
}

proof fn bucket_unique(entries: Seq<Kept>, hash: u16, i: int)
    requires
        one_per_bucket(entries),
        0 <= i < entries.len(),
        entries[i].hash == hash,
    ensures
        bucket_of(entries, hash) == Some(i),
{
    let j = bucket_of(entries, hash).unwrap();
    assert(0 <= j < entries.len() && entries[j].hash == hash);
    if i < j {
        assert(entries[i].hash != entries[j].hash);
    } else if j < i {
        assert(entries[j].hash != entries[i].hash);
    }
}

/// Offering a candidate keeps a slot valid.
pub proof fn absorb_keeps_valid(s: SlotView, l_max: nat, e: Kept)
    requires
        slot_valid(s, l_max),
    ensures
        slot_valid(absorb(s, l_max, e), l_max),
{
    let r = absorb(s, l_max, e);
    match bucket_of(s.entries, e.hash) {
        Some(i) => {
            assert(0 <= i < s.entries.len() && s.entries[i].hash == e.hash);
            if r != s {
                first_farthest_is_farthest(r.entries);
                assert(one_per_bucket(r.entries)) by {
                    assert forall|a: int, b: int| 0 <= a < b < r.entries.len() implies (
                    #[trigger] r.entries[a]).hash != (#[trigger] r.entries[b]).hash by {
                        assert(s.entries[a].hash != s.entries[b].hash);
                    }
                }
                if i != s.farthest {
                    assert(is_farthest(r.entries, s.farthest)) by {
                        assert forall|a: int| 0 <= a < r.entries.len() implies (
                        #[trigger] r.entries[a]).dist <= r.entries[s.farthest].dist by {
                            assert(s.entries[a].dist <= s.entries[s.farthest].dist);
                        }
                    }
                }
            }
        },
        None => {
            assert forall|a: int| 0 <= a < s.entries.len() implies (#[trigger] s.entries[a]).hash
                != e.hash by {}
            if r != s {
                if s.entries.len() >= l_max {
                    first_farthest_is_farthest(r.entries);
                } else {
                    assert(is_farthest(r.entries, r.farthest)) by {
                        assert forall|a: int| 0 <= a < r.entries.len() implies (
                        #[trigger] r.entries[a]).dist <= r.entries[r.farthest].dist by {
                            if a < s.entries.len() {
                                assert(s.entries[a].dist <= s.entries[s.farthest].dist);
                            }
                        }
                    }
                }
                assert(one_per_bucket(r.entries)) by {
                    assert forall|a: int, b: int| 0 <= a < b < r.entries.len() implies (
                    #[trigger] r.entries[a]).hash != (#[trigger] r.entries[b]).hash by {
                        if a < s.entries.len() && b < s.entries.len() {
                            assert(s.entries[a].hash != s.entries[b].hash);
                        }
                    }
                }
            }
        },
    }
}

/// What a slot owes to its history: every entry was offered and is the closest offer of its
/// bucket, and an offer whose bucket has no entry is no closer than any entry of a full slot.
pub open spec fn keeps_closest_buckets(entries: Seq<Kept>, l_max: nat, history: Seq<Kept>) -> bool {
    &&& forall|i: int|
        0 <= i < entries.len() ==> history.contains(#[trigger] entries[i])
    &&& forall|i: int, j: int|
        0 <= i < entries.len() && 0 <= j < history.len() && (#[trigger] history[j]).hash == (
        #[trigger] entries[i]).hash ==> entries[i].dist <= history[j].dist
    &&& forall|j: int|
        0 <= j < history.len() && bucket_of(entries, (#[trigger] history[j]).hash) is None
            ==> entries.len() == l_max && forall|i: int|
            0 <= i < entries.len() ==> (#[trigger] entries[i]).dist <= history[j].dist
}

/// After any history a slot is valid and holds the closest candidate of each of the `l_max`
/// closest buckets.
pub proof fn reservoir_keeps_closest_buckets(l_max: nat, history: Seq<Kept>)
    ensures
        slot_valid(absorb_all(l_max, history), l_max),
        keeps_closest_buckets(absorb_all(l_max, history).entries, l_max, history),
    decreases history.len(),
{
    if history.len() == 0 {
    } else {
        let past = history.drop_last();
        let e = history.last();
        reservoir_keeps_closest_buckets(l_max, past);
        let s = absorb_all(l_max, past);
        let r = absorb(s, l_max, e);
        absorb_keeps_valid(s, l_max, e);
        let old_entries = s.entries;
        let entries = r.entries;
        let n = past.len() as int;
        assert(history[n] == e);
        assert forall|j: int| 0 <= j < n implies #[trigger] history[j] == past[j] by {}
        assert forall|x: Kept| past.contains(x) implies #[trigger] history.contains(x) by {
            let j = choose|j: int| 0 <= j < past.len() && past[j] == x;
            assert(history[j] == x);
        }
        assert(history.contains(e));
        assert forall|i: int| 0 <= i < entries.len() implies history.contains(
            #[trigger] entries[i],
        ) by {
            if entries[i] != e {
                assert(entries[i] == old_entries[i]);
                assert(past.contains(old_entries[i]));
            }
        }
        assert forall|i: int, j: int|
            0 <= i < entries.len() && 0 <= j < history.len() && (#[trigger] history[j]).hash == (
            #[trigger] entries[i]).hash implies entries[i].dist <= history[j].dist by {
            if i < old_entries.len() && entries[i] == old_entries[i] {
                if j < n {
                    assert(past[j].hash == old_entries[i].hash);
                } else {
                    bucket_unique(old_entries, e.hash, i);
                }
            } else {
                assert(entries[i] == e);
                if j < n {
                    assert(past[j].hash == e.hash);
                    match bucket_of(old_entries, e.hash) {
                        Some(b) => {
                            assert(old_entries[b].hash == past[j].hash);
                        },
                        None => {
                            assert(bucket_of(old_entries, past[j].hash) is None);
                            if old_entries.len() > 0 {
                                assert(old_entries[s.farthest].dist <= past[j].dist);
                            }
                        },
                    }
                }
            }
        }
        assert forall|j: int|
            0 <= j < history.len() && bucket_of(entries, (#[trigger] history[j]).hash)
                is None implies entries.len() == l_max && forall|i: int|
            0 <= i < entries.len() ==> (#[trigger] entries[i]).dist <= history[j].dist by {
            let h = history[j].hash;
            if j < n {
                match bucket_of(old_entries, past[j].hash) {
                    Some(b) => {
                        assert(old_entries[b].hash == h);
                        assert(entries[b].hash != h);
                        assert(b == s.farthest);
                        assert(old_entries[b].dist <= past[j].dist);
                        assert forall|i: int| 0 <= i < entries.len() implies (
                        #[trigger] entries[i]).dist <= history[j].dist by {
                            assert(old_entries[i].dist <= old_entries[b].dist);
                        }
                    },
                    None => {
                        assert(old_entries.len() == l_max);
                        assert forall|i: int| 0 <= i < entries.len() implies (
                        #[trigger] entries[i]).dist <= history[j].dist by {
                            assert(old_entries[i].dist <= past[j].dist);
                            if old_entries.len() > 0 {
                                assert(old_entries[s.farthest].dist <= past[j].dist);
                            }
                        }
                    },
                }
            } else {
                assert(r == s) by {
                    if r != s {
                        assert(exists|i: int| 0 <= i < entries.len() && entries[i] == e) by {
                            match bucket_of(old_entries, e.hash) {
                                Some(b) => {
                                    assert(entries[b] == e);
                                },
                                None => {
                                    if old_entries.len() < l_max {
                                        assert(entries[old_entries.len() as int] == e);
                                    } else {
                                        assert(entries[s.farthest] == e);
                                    }
                                },
                            }
                        }
                    }
                }
                assert forall|i: int| 0 <= i < entries.len() implies (#[trigger] entries[i]).dist
                    <= history[j].dist by {
                    assert(old_entries[i].dist <= old_entries[s.farthest].dist);
                }
            }
        }
    }
}

/// Draining a slot lists its entries from near to far.
pub proof fn drained_ascending(entries: Seq<Kept>, max_degree: nat)
    ensures
        drained(entries, max_degree).len() <= max_degree,
        forall|i: int, j: int|
            0 <= i < j < drained(entries, max_degree).len() ==> (#[trigger] drained(
                entries,
                max_degree,
            )[i]).1.bits <= (#[trigger] drained(entries, max_degree)[j]).1.bits,
{
    let keys = dist_keys(entries);
    argsort_ascending(keys);
    let order = argsort(keys);
    let out = drained(entries, max_degree);
    assert forall|i: int, j: int| 0 <= i < j < out.len() implies (#[trigger] out[i]).1.bits <= (
    #[trigger] out[j]).1.bits by {
        assert(before(keys, order[i], order[j]));
        assert(keys[order[i]] == entries[order[i]].dist as u64);
        assert(keys[order[j]] == entries[order[j]].dist as u64);
    }
}

impl OnlineHashPrune {
    /// Number of points.
    pub closed spec fn npoints(&self) -> nat {
        self.hot@.len()
    }

    /// Most entries per point.
    pub closed spec fn capacity(&self) -> nat {
        self.l_max as nat
    }

    /// What the slot of point `p` holds.
    pub closed spec fn slot(&self, p: int) -> SlotView {
        SlotView {
            entries: slab_entries(
                self.cold_hashes@,
                self.cold_distances@,
                self.cold_neighbors@,
                p * self.scan_lanes,
                self.hot@[p].len as nat,
            ),
            farthest: self.hot@[p].farthest_idx as int,
        }
    }

    /// The slabs have room for every slot, and every slot is valid.
    pub closed spec fn wf(&self) -> bool {
        &&& self.l_max <= L_MAX_MAX
        &&& self.l_max <= self.scan_lanes
        &&& self.cold_hashes.len() == self.hot@.len() * self.scan_lanes
        &&& self.cold_distances.len() == self.hot@.len() * self.scan_lanes
        &&& self.cold_neighbors.len() == self.hot@.len() * self.scan_lanes
        &&& forall|p: int|
            0 <= p < self.hot@.len() ==> {
                &&& slot_valid(#[trigger] self.slot(p), self.l_max as nat)
                &&& self.hot@[p].farthest_dist == if self.hot@[p].len == 0 {
                    0
                } else {
                    self.slot(p).entries[self.slot(p).farthest].dist
                }
            }
    }

    /// Every slot of a well-formed reservoir is valid.
    pub proof fn slots_valid(&self, p: int)
        requires
            self.wf(),
            0 <= p < self.npoints(),
        ensures
            slot_valid(self.slot(p), self.capacity()),
    {
    }

    /// Empty reservoirs for `npoints` points with at most `l_max` entries each.
    pub fn new(npoints: usize, l_max: usize) -> (r: Self)
        requires
            l_max <= L_MAX_MAX,
            npoints * (if l_max == 0 { 32 } else { rounded_up_to_32(l_max as int) }) <= usize::MAX,
        ensures
            r.wf(),
            r.npoints() == npoints,
            r.capacity() == l_max,
            forall|p: int| 0 <= p < npoints ==> #[trigger] r.slot(p) == empty_slot(),
    {
        let rounded: usize = round_up_to_32(l_max);
        let scan_lanes: usize = if rounded < SCAN_WIDTH { SCAN_WIDTH } else { rounded };
        let hot = vec![HotSlot::new_empty(); npoints];
        let total: usize = npoints * scan_lanes;
        let r = OnlineHashPrune {
            hot,
            cold_hashes: vec![0u16; total],
            cold_distances: vec![0u16; total],
            cold_neighbors: vec![0u32; total],
            scan_lanes,
            l_max,
        };
        proof {
            assert forall|p: int| 0 <= p < npoints implies #[trigger] r.slot(p)
                == empty_slot() by {
                assert(r.hot@[p].len == 0);
                assert(r.slot(p).entries =~= Seq::empty());
            }
        }
        r
    }

    /// Number of points.
    pub fn len(&self) -> (r: usize)
        ensures
            r == self.npoints(),
    {
        self.hot.len()
    }

    /// Most entries per point.
    pub fn l_max(&self) -> (r: usize)
        ensures
            r == self.capacity(),
    {
        self.l_max
    }

    /// First entry of the slot at `off` whose bucket is `target`.
    fn find_hash(&self, off: usize, len: usize, target: u16) -> (r: Option<usize>)
        requires
            off + len <= self.cold_hashes.len(),
        ensures
            match r {
                Some(i) => i < len && self.cold_hashes@[off + i] == target && forall|j: int|
                    0 <= j < i ==> #[trigger] self.cold_hashes@[off + j] != target,
                None => forall|j: int|
                    0 <= j < len ==> #[trigger] self.cold_hashes@[off + j] != target,
            },
    {
        let mut i: usize = 0;
        while i < len
            invariant
                i <= len,
                off + len <= self.cold_hashes.len(),
                forall|j: int| 0 <= j < i ==> #[trigger] self.cold_hashes@[off + j] != target,
            decreases len - i,
        {
            if self.cold_hashes[off + i] == target {
                return Some(i);
            }
            i += 1;
        }
        None
    }

    /// Index and distance of the first farthest entry of the slot at `off`.
    fn update_farthest(&self, off: usize, len: u8) -> (r: (u8, u16))
        requires
            0 < len,
            off + len <= self.cold_hashes.len(),
            self.cold_distances.len() == self.cold_hashes.len(),
            self.cold_neighbors.len() == self.cold_hashes.len(),
        ensures
            ({
                let entries = slab_entries(
                    self.cold_hashes@,
                    self.cold_distances@,
                    self.cold_neighbors@,
                    off as int,
                    len as nat,
                );
                r.0 == first_farthest(entries) && r.0 < len && r.1 == entries[r.0 as int].dist
            }),
    {
        let ghost entries = slab_entries(
            self.cold_hashes@,
            self.cold_distances@,
            self.cold_neighbors@,
            off as int,
            len as nat,
        );
        let mut max_dist: u16 = self.cold_distances[off];
        let mut max_idx: u8 = 0;
        let mut i: u8 = 1;
        while i < len
            invariant
                1 <= i <= len,
                off + len <= self.cold_hashes.len(),
                self.cold_distances.len() == self.cold_hashes.len(),
                entries == slab_entries(
                    self.cold_hashes@,
                    self.cold_distances@,
                    self.cold_neighbors@,
                    off as int,
                    len as nat,
                ),
                max_idx < i,
                max_idx == first_farthest(entries.take(i as int)),
                max_dist == entries[max_idx as int].dist,
            decreases len - i,
        {
            let d: u16 = self.cold_distances[off + i as usize];
            proof {
                assert(entries.take(i + 1).drop_last() =~= entries.take(i as int));
                assert(entries.take(i + 1).last() == entries[i as int]);
            }
            if d > max_dist {
                max_dist = d;
                max_idx = i;
            }
            i += 1;
        }
        proof {
            assert(entries.take(len as int) =~= entries);
        }
        (max_idx, max_dist)
    }

    /// Writes one entry of the slot of point `p`.
    fn store(&mut self, p: usize, idx: usize, hash: u16, dist: u16, neighbor: u32)
        requires
            p < old(self).hot@.len(),
            idx < old(self).scan_lanes,
            old(self).cold_hashes.len() == old(self).hot@.len() * old(self).scan_lanes,
            old(self).cold_distances.len() == old(self).hot@.len() * old(self).scan_lanes,
            old(self).cold_neighbors.len() == old(self).hot@.len() * old(self).scan_lanes,
        ensures
            final(self).hot@ == old(self).hot@,
            final(self).scan_lanes == old(self).scan_lanes,
            final(self).l_max == old(self).l_max,
            final(self).cold_hashes@ == old(self).cold_hashes@.update(
                p * old(self).scan_lanes + idx,
                hash,
            ),
            final(self).cold_distances@ == old(self).cold_distances@.update(
                p * old(self).scan_lanes + idx,
                dist,
            ),
            final(self).cold_neighbors@ == old(self).cold_neighbors@.update(
                p * old(self).scan_lanes + idx,
                neighbor,
            ),
    {
        proof {
            row_bounds(p as int, self.hot@.len() as int, self.scan_lanes as int);
        }
        let at: usize = p * self.scan_lanes + idx;
        self.cold_hashes.set(at, hash);
        self.cold_distances.set(at, dist);
        self.cold_neighbors.set(at, neighbor);
    }

    /// Offers a candidate to the slot of point `p`; tells whether the slot changed.
    fn insert_locked(&mut self, p: usize, hash: u16, neighbor: u32, distance: Real) -> (r: bool)
        requires
            old(self).wf(),
            p < old(self).npoints(),
        ensures
            final(self).wf(),
            final(self).npoints() == old(self).npoints(),
            final(self).capacity() == old(self).capacity(),
            final(self).slot(p as int) == absorb(
                old(self).slot(p as int),
                old(self).capacity(),
                (Kept { hash, dist: distance.coarse(), neighbor }),
            ),
            forall|q: int|
                0 <= q < old(self).npoints() && q != p ==> #[trigger] final(self).slot(q) == old(
                    self,
                ).slot(q),
            r <==> final(self).slot(p as int) != old(self).slot(p as int),
    {
        let dist: u16 = distance.to_coarse();
        let hot = self.hot[p];
        let ghost e = Kept { hash, dist, neighbor };
        let ghost before_slot = self.slot(p as int);
        let ghost before = *self;
        let ghost cap = self.l_max as nat;
        let ghost lanes = self.scan_lanes as int;
        proof {
            row_bounds(p as int, self.hot@.len() as int, lanes);
            assert(slot_valid(before_slot, cap));
            absorb_keeps_valid(before_slot, cap, e);
        }
        let off: usize = p * self.scan_lanes;
        if hot.len as usize >= self.l_max && dist >= hot.farthest_dist {
            return false;
        }
        let found = self.find_hash(off, hot.len as usize, hash);
        match found {
            Some(idx) => {
                proof {
                    assert(before_slot.entries[idx as int].hash == hash);
                    bucket_unique(before_slot.entries, hash, idx as int);
                }
                if dist < self.cold_distances[off + idx] {
                    self.store(p, idx, hash, dist, neighbor);
                    let ghost mid_entries = slab_entries(
                        self.cold_hashes@,
                        self.cold_distances@,
                        self.cold_neighbors@,
                        off as int,
                        hot.len as nat,
                    );
                    assert(mid_entries =~= before_slot.entries.update(idx as int, e));
                    if idx == hot.farthest_idx as usize {
                        let far = self.update_farthest(off, hot.len);
                        self.hot.set(
                            p,
                            HotSlot { len: hot.len, farthest_idx: far.0, farthest_dist: far.1 },
                        );
                    }
                    proof {
                        assert(self.slot(p as int).entries == mid_entries);
                        assert(mid_entries[idx as int].dist != before_slot.entries[idx as int].dist);
                        assert(self.slot(p as int) == absorb(before_slot, cap, e));
                        before.one_slot_changed(*self, p as int);
                    }
                    return true;
                }
                return false;
            },
            None => {
                proof {
                    assert(bucket_of(before_slot.entries, hash) is None) by {
                        assert forall|i: int| 0 <= i < before_slot.entries.len() implies (
                        #[trigger] before_slot.entries[i]).hash != hash by {
                            assert(before.cold_hashes@[off + i] != hash);
                        }
                    }
                }
            },
        }
        if (hot.len as usize) < self.l_max {
            self.store(p, hot.len as usize, hash, dist, neighbor);
            let moved = dist >= hot.farthest_dist;
            self.hot.set(
                p,
                HotSlot {
                    len: hot.len + 1,
                    farthest_idx: if moved {
                        hot.len
                    } else {
                        hot.farthest_idx
                    },
                    farthest_dist: if moved {
                        dist
                    } else {
                        hot.farthest_dist
                    },
                },
            );
            proof {
                assert(self.slot(p as int).entries =~= before_slot.entries.push(e));
                before.one_slot_changed(*self, p as int);
            }
            return true;
        }
        let idx: usize = hot.farthest_idx as usize;
        self.store(p, idx, hash, dist, neighbor);
        let ghost mid_entries = slab_entries(
            self.cold_hashes@,
            self.cold_distances@,
            self.cold_neighbors@,
            off as int,
            hot.len as nat,
        );
        assert(mid_entries =~= before_slot.entries.update(idx as int, e));
        let far = self.update_farthest(off, hot.len);
        self.hot.set(p, HotSlot { len: hot.len, farthest_idx: far.0, farthest_dist: far.1 });
        proof {
            assert(self.slot(p as int).entries == mid_entries);
            assert(mid_entries[idx as int].hash != before_slot.entries[idx as int].hash) by {
                assert(before.cold_hashes@[off + idx] != hash);
            }
            assert(self.slot(p as int) == absorb(before_slot, cap, e));
            before.one_slot_changed(*self, p as int);
        }
        true
    }

    /// A change confined to the part of the slabs that belongs to point `p` leaves every other
    /// slot as it was, and the whole well-formed if the slot of `p` is.
    proof fn one_slot_changed(self, after: Self, p: int)
        requires
            self.wf(),
            0 <= p < self.hot@.len(),
            after.scan_lanes == self.scan_lanes,
            after.l_max == self.l_max,
            after.hot@.len() == self.hot@.len(),
            slot_valid(after.slot(p), self.l_max as nat),
            after.hot@[p].farthest_dist == if after.hot@[p].len == 0 {
                0
            } else {
                after.slot(p).entries[after.slot(p).farthest].dist
            },
            forall|q: int|
                0 <= q < self.hot@.len() && q != p ==> #[trigger] after.hot@[q] == self.hot@[q],
            after.cold_hashes.len() == self.cold_hashes.len(),
            after.cold_distances.len() == self.cold_distances.len(),
            after.cold_neighbors.len() == self.cold_neighbors.len(),
            forall|i: int|
                0 <= i < self.cold_hashes.len() && !(p * self.scan_lanes <= i < p
                    * self.scan_lanes + self.scan_lanes) ==> (#[trigger] after.cold_hashes@[i])
                    == self.cold_hashes@[i],
            forall|i: int|
                0 <= i < self.cold_hashes.len() && !(p * self.scan_lanes <= i < p
                    * self.scan_lanes + self.scan_lanes) ==> (#[trigger] after.cold_distances@[i])
                    == self.cold_distances@[i],
            forall|i: int|
                0 <= i < self.cold_hashes.len() && !(p * self.scan_lanes <= i < p
                    * self.scan_lanes + self.scan_lanes) ==> (#[trigger] after.cold_neighbors@[i])
                    == self.cold_neighbors@[i],
        ensures
            after.wf(),
            forall|q: int|
                0 <= q < self.hot@.len() && q != p ==> #[trigger] after.slot(q) == self.slot(q),
    {
        let lanes = self.scan_lanes as int;
        assert forall|q: int| 0 <= q < self.hot@.len() && q != p implies #[trigger] after.slot(q)
            == self.slot(q) by {
            if p < q {
                rows_apart(p, q, lanes);
            } else {
                rows_apart(q, p, lanes);
            }
            row_bounds(q, self.hot@.len() as int, lanes);
            assert(slot_valid(self.slot(q), self.l_max as nat));
            assert(after.hot@[q] == self.hot@[q]);
            let n = self.hot@[q].len as int;
            assert(self.slot(q).entries.len() == n);
            assert(n <= lanes);
            assert(after.slot(q).entries =~= self.slot(q).entries);
        }
    }

    /// Offers the edge from `p` to `c`, whose bucket is `hash`.
    pub fn add_edge(&mut self, p: usize, c: u32, hash: u16, dist: Real)
        requires
            old(self).wf(),
            p < old(self).npoints(),
        ensures
            final(self).wf(),
            final(self).npoints() == old(self).npoints(),
            final(self).capacity() == old(self).capacity(),
            final(self).slot(p as int) == absorb(
                old(self).slot(p as int),
                old(self).capacity(),
                (Kept { hash, dist: dist.coarse(), neighbor: c }),
            ),
            forall|q: int|
                0 <= q < old(self).npoints() && q != p ==> #[trigger] final(self).slot(q) == old(
                    self,
                ).slot(q),
    {
        self.insert_locked(p, hash, c, dist);
    }

    /// The kept neighbours of `p` from near to far, at most `max_degree` of them.
    pub fn get_neighbors(&self, p: usize, max_degree: usize) -> (out: Vec<(u32, Real)>)
        requires
            self.wf(),
            p < self.npoints(),
        ensures
            out@ == drained(self.slot(p as int).entries, max_degree as nat),
    {
        let n: usize = self.hot[p].len as usize;
        let ghost entries = self.slot(p as int).entries;
        proof {
            row_bounds(p as int, self.hot@.len() as int, self.scan_lanes as int);
            assert(slot_valid(self.slot(p as int), self.l_max as nat));
        }
        let off: usize = p * self.scan_lanes;
        let mut keys: Vec<u64> = Vec::with_capacity(n);
        let mut i: usize = 0;
        while i < n
            invariant
                i <= n,
                off == p * self.scan_lanes,
                off + n <= self.cold_distances.len(),
                self.cold_distances.len() == self.cold_hashes.len(),
                p < self.hot@.len(),
                n == self.hot@[p as int].len,
                entries == self.slot(p as int).entries,
                keys@.len() == i,
                forall|j: int| 0 <= j < i ==> #[trigger] keys@[j] == entries[j].dist as u64,
            decreases n - i,
        {
            keys.push(self.cold_distances[off + i] as u64);
            i += 1;
        }
        assert(keys@ =~= dist_keys(entries));
        let order = sort_positions(&keys);
        let take: usize = if n <= max_degree { n } else { max_degree };
        let mut out: Vec<(u32, Real)> = Vec::with_capacity(take);
        let mut i: usize = 0;
        while i < take
            invariant
                i <= take <= n,
                off == p * self.scan_lanes,
                off + n <= self.cold_distances.len(),
                self.cold_distances.len() == self.cold_hashes.len(),
                self.cold_neighbors.len() == self.cold_hashes.len(),
                p < self.hot@.len(),
                n == self.hot@[p as int].len,
                entries == self.slot(p as int).entries,
                entries.len() == n,
                order.len() == n,
                take == if n <= max_degree { n } else { max_degree },
                positions(order@) == argsort(dist_keys(entries)),
                forall|j: int| 0 <= j < order.len() ==> #[trigger] order[j] < n,
                out@.len() == i,
                forall|j: int|
                    0 <= j < i ==> #[trigger] out@[j] == drained(entries, max_degree as nat)[j],
            decreases take - i,
        {
            let at: usize = order[i];
            assert(positions(order@)[i as int] == at);
            out.push((self.cold_neighbors[off + at], Real::from_coarse(self.cold_distances[off + at])));
            i += 1;
        }
        assert(out@ =~= drained(entries, max_degree as nat));
        out
    }
}

} // verus!
