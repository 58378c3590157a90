//! A direct-mapped cache of the vectors that leaves gather.

use crate::gemm::row_slice;
use crate::measure::{row, row_bounds, rows_apart};
use crate::number::{power_grows, power_of_two, Real};
use vstd::prelude::*;

verus! {

/// Logarithm of the number of slots, unless something else is asked for.
pub const POINT_CACHE_LOG2_DEFAULT: u32 = 11;

/// Smallest logarithm that can be asked for.
pub const POINT_CACHE_LOG2_MIN: u32 = 3;

/// Largest logarithm that can be asked for.
pub const POINT_CACHE_LOG2_MAX: u32 = 20;

/// Key of an empty slot.
pub const POINT_CACHE_EMPTY: u32 = 0xffff_ffff;

/// Multiplier that spreads consecutive keys over the slots.
pub const POINT_CACHE_MIX: u64 = 0x9E37_79B9_7F4A_7C15;

/// Whether the cache is to be used, by the setting it is switched with: `1`, `true`, `TRUE` or
/// `on`.
pub fn point_cache_enabled(setting: Option<&[u8]>) -> (r: bool)
    ensures
        r == match setting {
            Some(s) => s@ == seq![0x31u8] || s@ == seq![0x74u8, 0x72, 0x75, 0x65] || s@
                == seq![0x54u8, 0x52, 0x55, 0x45] || s@ == seq![0x6fu8, 0x6e],
            None => false,
        },
{
    let one = vec![0x31u8];
    let lower = vec![0x74u8, 0x72, 0x75, 0x65];
    let upper = vec![0x54u8, 0x52, 0x55, 0x45];
    let on = vec![0x6fu8, 0x6e];
    proof {
        assert(one@ =~= seq![0x31u8]);
        assert(lower@ =~= seq![0x74u8, 0x72, 0x75, 0x65]);
        assert(upper@ =~= seq![0x54u8, 0x52, 0x55, 0x45]);
        assert(on@ =~= seq![0x6fu8, 0x6e]);
    }
    match setting {
        None => false,
        Some(s) => same_bytes(s, &one) || same_bytes(s, &lower) || same_bytes(s, &upper)
            || same_bytes(s, &on),
    }
}

fn same_bytes(a: &[u8], b: &Vec<u8>) -> (r: bool)
    ensures
        r == (a@ == b@),
{
    if a.len() != b.len() {
        return false;
    }
    let mut i: usize = 0;
    while i < b.len()
        invariant
            i <= b@.len(),
            a@.len() == b@.len(),
            forall|j: int| 0 <= j < i ==> #[trigger] a@[j] == b@[j],
        decreases b@.len() - i,
    {
        if a[i] != b[i] {
            return false;
        }
        i += 1;
    }
    assert(a@ =~= b@);
    true
}

/// Logarithm of the number of slots: what is asked for where that is in range, else the default.
pub open spec fn chosen_log2(setting: Option<u32>) -> u32 {
    match setting {
        Some(n) if POINT_CACHE_LOG2_MIN <= n <= POINT_CACHE_LOG2_MAX => n,
        _ => POINT_CACHE_LOG2_DEFAULT,
    }
}

/// Chooses the logarithm of the number of slots.
pub fn point_cache_log2(setting: Option<u32>) -> (r: u32)
    ensures
        r == chosen_log2(setting),
        POINT_CACHE_LOG2_MIN <= r <= POINT_CACHE_LOG2_MAX,
{
    match setting {
        Some(n) => if POINT_CACHE_LOG2_MIN <= n && n <= POINT_CACHE_LOG2_MAX {
            n
        } else {
            POINT_CACHE_LOG2_DEFAULT
        },
        None => POINT_CACHE_LOG2_DEFAULT,
    }
}

/// Number of slots.
pub fn point_cache_size(log2: u32) -> (r: usize)
    requires
        log2 <= POINT_CACHE_LOG2_MAX,
    ensures
        r == power_of_two(log2 as nat),
        1 <= r <= 0x10_0000,
{
    let mut r: usize = 1;
    let mut i: u32 = 0;
    while i < log2
        invariant
            i <= log2 <= POINT_CACHE_LOG2_MAX,
            r == power_of_two(i as nat),
            1 <= r,
        decreases log2 - i,
    {
        proof {
            power_grows(i as nat, (POINT_CACHE_LOG2_MAX - 1) as nat);
            assert(power_of_two(19) == 0x8_0000) by {
                reveal_with_fuel(power_of_two, 20);
            }
        }
        r = 2 * r;
        i += 1;
    }
    proof {
        power_grows(log2 as nat, POINT_CACHE_LOG2_MAX as nat);
        assert(power_of_two(20) == 0x10_0000) by {
            reveal_with_fuel(power_of_two, 21);
        }
    }
    r
}

/// Mask that cuts a hash down to a slot.
pub fn point_cache_mask(log2: u32) -> (r: usize)
    requires
        log2 <= POINT_CACHE_LOG2_MAX,
    ensures
        r == power_of_two(log2 as nat) - 1,
{
    point_cache_size(log2) - 1
}

/// Slots for vectors, by point id.
#[derive(Debug)]
pub struct PointCache {
    /// The vectors, slot by slot.
    pub data: Vec<Real>,
    /// The point in each slot.
    pub keys: Vec<u32>,
    /// Length of a vector.
    pub ndims: usize,
    /// Lookups that found their point.
    pub hits: u64,
    /// Lookups that did not.
    pub misses: u64,
}

impl Default for PointCache {
    fn default() -> (r: Self)
        ensures
            r.vacated(),
    {
        PointCache::new()
    }
}

/// The keys of a cache that has room for `slots` points: those of before, if their vectors are
/// `kept`, and empty slots behind them.
pub open spec fn roomy_keys(keys: Seq<u32>, kept: bool, slots: nat) -> Seq<u32> {
    if !kept {
        Seq::new(slots, |s: int| POINT_CACHE_EMPTY)
    } else if keys.len() < slots {
        Seq::new(
            slots,
            |s: int|
                if s < keys.len() {
                    keys[s]
                } else {
                    POINT_CACHE_EMPTY
                },
        )
    } else {
        keys
    }
}

impl PointCache {
    /// Nothing is stored, and no memory held.
    pub open spec fn vacated(&self) -> bool {
        self.data@.len() == 0 && self.keys@.len() == 0 && self.ndims == 0 && self.hits == 0
            && self.misses == 0
    }

    /// There is room for a vector per slot.
    pub open spec fn wf(&self) -> bool {
        self.data@.len() == self.keys@.len() * self.ndims
    }

    /// Every occupied slot holds the vector that the data set has for its point.
    pub open spec fn coherent(&self, data: Seq<Real>) -> bool {
        forall|s: int|
            0 <= s < self.keys@.len() && (#[trigger] self.keys@[s]) != POINT_CACHE_EMPTY ==> row(
                self.data@,
                self.ndims as int,
                s,
            ) == row(data, self.ndims as int, self.keys@[s] as int)
    }

    /// An empty cache.
    pub fn new() -> (r: Self)
        ensures
            r.vacated(),
            r.wf(),
    {
        PointCache { data: Vec::new(), keys: Vec::new(), ndims: 0, hits: 0, misses: 0 }
    }

    /// Makes room for vectors of length `ndims`. What is stored stays if it has that length.
    pub fn ensure_capacity(&mut self, ndims: usize, log2: u32)
        requires
            old(self).wf(),
            log2 <= POINT_CACHE_LOG2_MAX,
            power_of_two(log2 as nat) * ndims <= usize::MAX,
        ensures
            final(self).wf(),
            final(self).ndims == ndims,
            final(self).hits == old(self).hits,
            final(self).misses == old(self).misses,
            final(self).keys@ == roomy_keys(
                old(self).keys@,
                old(self).ndims == ndims,
                power_of_two(log2 as nat),
            ),
            final(self).keys@.len() >= power_of_two(log2 as nat),
            forall|data: Seq<Real>| old(self).coherent(data) ==> #[trigger] final(self).coherent(data),
    {
        let sz: usize = point_cache_size(log2);
        let ghost before = *self;
        if self.ndims != ndims {
            self.data = vec![Real::zero(); sz * ndims];
            self.keys = vec![POINT_CACHE_EMPTY; sz];
            self.ndims = ndims;
            assert(self.keys@ =~= roomy_keys(before.keys@, false, sz as nat));
        } else if self.keys.len() < sz {
            proof {
                assert(before.keys@.len() * ndims <= sz * ndims) by (nonlinear_arith)
                    requires
                        before.keys@.len() <= sz,
                        0 <= ndims,
                ;
            }
            self.data.resize(sz * ndims, Real::zero());
            self.keys.resize(sz, POINT_CACHE_EMPTY);
            proof {
                let old_keys = before.keys@.len() as int;
                assert forall|s: int| 0 <= s < old_keys implies #[trigger] self.keys@[s]
                    == before.keys@[s] by {
                    assert(self.keys@.subrange(0, old_keys)[s] == self.keys@[s]);
                }
                assert(self.keys@ =~= roomy_keys(before.keys@, true, sz as nat));
                assert forall|data: Seq<Real>| before.coherent(data) implies #[trigger] self.coherent(
                    data,
                ) by {
                    assert forall|s: int|
                        0 <= s < self.keys@.len() && (#[trigger] self.keys@[s])
                            != POINT_CACHE_EMPTY implies row(self.data@, ndims as int, s) == row(
                        data,
                        ndims as int,
                        self.keys@[s] as int,
                    ) by {
                        if s < old_keys {
                            assert(before.keys@[s] == self.keys@[s]);
                            row_bounds(s, old_keys, ndims as int);
                            row_bounds(s, sz as int, ndims as int);
                            assert(row(self.data@, ndims as int, s) =~= row(
                                before.data@,
                                ndims as int,
                                s,
                            )) by {
                                let kept = self.data@.subrange(0, before.data@.len() as int);
                                assert forall|x: int|
                                    s * ndims <= x < (s + 1) * ndims implies self.data@[x]
                                    == before.data@[x] by {
                                    assert(kept[x] == self.data@[x]);
                                }
                            }
                        }
                    }
                }
            }
        }
    }

    /// Empties all slots and the counters, keeps the memory.
    pub fn clear(&mut self)
        ensures
            final(self).data == old(self).data,
            final(self).ndims == old(self).ndims,
            final(self).keys@.len() == old(self).keys@.len(),
            forall|s: int|
                0 <= s < final(self).keys@.len() ==> #[trigger] final(self).keys@[s]
                    == POINT_CACHE_EMPTY,
            final(self).hits == 0,
            final(self).misses == 0,
    {
        let n: usize = self.keys.len();
        let mut s: usize = 0;
        while s < n
            invariant
                s <= n == self.keys@.len(),
                n == old(self).keys@.len(),
                self.data == old(self).data,
                self.ndims == old(self).ndims,
                forall|x: int| 0 <= x < s ==> #[trigger] self.keys@[x] == POINT_CACHE_EMPTY,
            decreases n - s,
        {
            self.keys.set(s, POINT_CACHE_EMPTY);
            s += 1;
        }
        self.hits = 0;
        self.misses = 0;
    }

    /// Gives all memory back.
    pub fn release(&mut self)
        ensures
            final(self).vacated(),
            final(self).wf(),
    {
        self.data = Vec::new();
        self.keys = Vec::new();
        self.ndims = 0;
        self.hits = 0;
        self.misses = 0;
    }

    /// The slot of a point.
    pub open spec fn slot_of(key: u32, log2: u32) -> int {
        (key as int * POINT_CACHE_MIX as int) % 0x1_0000_0000_0000_0000 % power_of_two(
            log2 as nat,
        ) as int
    }

    /// Finds the slot of a point, by multiplicative hashing.
    pub fn slot(key: u32, log2: u32) -> (r: usize)
        requires
            log2 <= POINT_CACHE_LOG2_MAX,
        ensures
            r == PointCache::slot_of(key, log2),
            r < power_of_two(log2 as nat),
    {
        let h: u64 = (key as u64).wrapping_mul(POINT_CACHE_MIX);
        let size: usize = point_cache_size(log2);
        (h % size as u64) as usize
    }
}

/// Nothing stored agrees with every data set.
pub proof fn cleared_is_coherent(cache: PointCache, data: Seq<Real>)
    requires
        forall|s: int| 0 <= s < cache.keys@.len() ==> #[trigger] cache.keys@[s] == POINT_CACHE_EMPTY,
    ensures
        cache.coherent(data),
{
}

/// The rows of a leaf, one after another.
pub open spec fn gathered(data: Seq<Real>, ndims: int, indices: Seq<usize>, local: Seq<Real>) -> bool {
    forall|i: int|
        0 <= i < indices.len() ==> #[trigger] row(local, ndims, i) == row(
            data,
            ndims,
            indices[i] as int,
        )
}

/// Every index is a row of the data set.
pub open spec fn rows_exist(data: Seq<Real>, ndims: int, indices: Seq<usize>) -> bool {
    forall|i: int| 0 <= i < indices.len() ==> (#[trigger] indices[i] + 1) * ndims <= data.len()
}

/// Copies `source` into row `i` of `target`.
fn copy_row(source: &[Real], target: &mut Vec<Real>, width: usize, i: usize, Ghost(n): Ghost<int>)
    requires
        source@.len() == width,
        i < n,
        n * width <= old(target)@.len(),
    ensures
        final(target)@.len() == old(target)@.len(),
        row(final(target)@, width as int, i as int) == source@,
        forall|x: int|
            0 <= x < old(target)@.len() && !(i * width <= x < i * width + width) ==> (#[trigger] final(
            target)@[x]) == old(target)@[x],
{
    proof {
        row_bounds(i as int, n, width as int);
        assert(target.len() == target@.len());
    }
    let ghost before = target@;
    let start: usize = i * width;
    let mut x: usize = 0;
    while x < width
        invariant
            x <= width == source@.len(),
            start == i * width,
            start + width <= target@.len() <= usize::MAX,
            target@.len() == before.len(),
            forall|y: int| 0 <= y < x ==> #[trigger] target@[start + y] == source@[y],
            forall|y: int|
                0 <= y < before.len() && !(start <= y < start + width) ==> #[trigger] target@[y]
                    == before[y],
        decreases width - x,
    {
        let ghost prior = target@;
        target.set(start + x, source[x]);
        proof {
            assert forall|y: int| 0 <= y < x implies #[trigger] target@[start + y] == source@[y] by {
                assert(prior[start + y] == source@[y]);
            }
        }
        x += 1;
    }
    assert(row(target@, width as int, i as int) =~= source@) by {
        assert forall|y: int| 0 <= y < width implies row(target@, width as int, i as int)[y]
            == source@[y] by {
            assert(target@[start + y] == source@[y]);
        }
    }
}

/// A change confined to one row leaves another as it is.
proof fn other_row_same(before: Seq<Real>, after: Seq<Real>, n: int, width: int, i: int, j: int)
    requires
        0 <= width,
        0 <= i < n,
        0 <= j < n,
        i != j,
        n * width <= before.len(),
        before.len() == after.len(),
        forall|x: int|
            0 <= x < before.len() && !(i * width <= x < i * width + width) ==> #[trigger] after[x]
                == before[x],
    ensures
        row(after, width, j) == row(before, width, j),
{
    row_bounds(j, n, width);
    row_bounds(i, n, width);
    if i < j {
        rows_apart(i, j, width);
    } else {
        rows_apart(j, i, width);
    }
    assert(row(after, width, j) =~= row(before, width, j));
}

/// One more row was written: the rows before it are still in place, and nothing beyond the rows
/// of the leaf has changed.
proof fn row_written(
    data: Seq<Real>,
    width: int,
    indices: Seq<usize>,
    before: Seq<Real>,
    after: Seq<Real>,
    i: int,
)
    requires
        0 <= i < indices.len(),
        0 <= width,
        indices.len() * width <= before.len(),
        before.len() == after.len(),
        forall|x: int|
            0 <= x < before.len() && !(i * width <= x < i * width + width) ==> #[trigger] after[x]
                == before[x],
        row(after, width, i) == row(data, width, indices[i] as int),
        rows_in_place(data, width, indices, before, i),
    ensures
        rows_in_place(data, width, indices, after, i + 1),
        after.skip(indices.len() * width) == before.skip(indices.len() * width),
{
    let n = indices.len() as int;
    row_bounds(i, n, width);
    assert forall|x: int| 0 <= x < i + 1 implies #[trigger] row(after, width, x) == row(
        data,
        width,
        indices[x] as int,
    ) by {
        if x < i {
            other_row_same(before, after, n, width, i, x);
            assert(row(before, width, x) == row(data, width, indices[x] as int));
        }
    }
    assert(after.skip(n * width) =~= before.skip(n * width));
}

/// The first `m` rows of a leaf are those of its points.
spec fn rows_in_place(
    data: Seq<Real>,
    width: int,
    indices: Seq<usize>,
    local: Seq<Real>,
    m: int,
) -> bool {
    forall|x: int|
        0 <= x < m ==> #[trigger] row(local, width, x) == row(data, width, indices[x] as int)
}

/// Collects the rows of a leaf, reading the data set directly.
pub fn gather_rows(data: &[Real], ndims: usize, indices: &[usize], local: &mut Vec<Real>)
    requires
        rows_exist(data@, ndims as int, indices@),
        indices@.len() * ndims <= old(local)@.len(),
    ensures
        final(local)@.len() == old(local)@.len(),
        gathered(data@, ndims as int, indices@, final(local)@),
        final(local)@.skip((indices@.len() * ndims) as int) == old(local)@.skip(
            (indices@.len() * ndims) as int,
        ),
{
    let n: usize = indices.len();
    let mut i: usize = 0;
    while i < n
        invariant
            i <= n == indices@.len(),
            rows_exist(data@, ndims as int, indices@),
            n * ndims <= local@.len(),
            local@.len() == old(local)@.len(),
            local@.skip(n * ndims) == old(local)@.skip(n * ndims),
            rows_in_place(data@, ndims as int, indices@, local@, i as int),
        decreases n - i,
    {
        let idx: usize = indices[i];
        let ghost prior = local@;
        assert((indices@[i as int] + 1) * ndims <= data@.len());
        let source = row_slice(data, ndims, idx, Ghost(idx + 1));
        copy_row(source, local, ndims, i, Ghost(n as int));
        proof {
            row_written(data@, ndims as int, indices@, prior, local@, i as int);
        }
        i += 1;
    }
}

/// The keys of a cache once the first `m` points of a list were looked up: every point has taken
/// its slot.
pub open spec fn keys_after(keys: Seq<u32>, indices: Seq<usize>, log2: u32, m: int) -> Seq<u32>
    decreases m,
{
    if m <= 0 {
        keys
    } else {
        let key = indices[m - 1] as u32;
        keys_after(keys, indices, log2, m - 1).update(PointCache::slot_of(key, log2), key)
    }
}

/// How many of the first `m` points of a list are in the cache when they are looked up.
pub open spec fn hits_among(keys: Seq<u32>, indices: Seq<usize>, log2: u32, m: int) -> nat
    decreases m,
{
    if m <= 0 {
        0
    } else {
        let key = indices[m - 1] as u32;
        hits_among(keys, indices, log2, m - 1) + if keys_after(
            keys,
            indices,
            log2,
            m - 1,
        )[PointCache::slot_of(key, log2)] == key {
            1nat
        } else {
            0nat
        }
    }
}

/// Copies row `idx` of the data set into row `i` of `local`, through the cache.
fn gather_one(
    data: &[Real],
    ndims: usize,
    idx: usize,
    i: usize,
    local: &mut Vec<Real>,
    cache: &mut PointCache,
    log2: u32,
    Ghost(n): Ghost<int>,
)
    requires
        (idx + 1) * ndims <= data@.len(),
        idx < POINT_CACHE_EMPTY,
        i < n,
        n * ndims <= old(local)@.len(),
        old(cache).wf(),
        old(cache).ndims == ndims,
        log2 <= POINT_CACHE_LOG2_MAX,
        power_of_two(log2 as nat) <= old(cache).keys@.len(),
        old(cache).coherent(data@),
    ensures
        final(local)@.len() == old(local)@.len(),
        row(final(local)@, ndims as int, i as int) == row(data@, ndims as int, idx as int),
        forall|x: int|
            0 <= x < old(local)@.len() && !(i * ndims <= x < i * ndims + ndims) ==> (#[trigger] final(
            local)@[x]) == old(local)@[x],
        final(cache).wf(),
        final(cache).ndims == ndims,
        final(cache).keys@.len() == old(cache).keys@.len(),
        final(cache).coherent(data@),
        final(cache).keys@ == old(cache).keys@.update(
            PointCache::slot_of(idx as u32, log2),
            idx as u32,
        ),
        ({
            let hit = old(cache).keys@[PointCache::slot_of(idx as u32, log2)] == idx as u32;
            &&& final(cache).hits == (old(cache).hits + if hit { 1int } else { 0 })
                % 0x1_0000_0000_0000_0000
            &&& final(cache).misses == (old(cache).misses + if hit { 0int } else { 1 })
                % 0x1_0000_0000_0000_0000
        }),
{
    let ghost slots = cache.keys@.len() as int;
    let key: u32 = idx as u32;
    let slot: usize = PointCache::slot(key, log2);
    if cache.keys[slot] == key {
        let source = row_slice(cache.data.as_slice(), ndims, slot, Ghost(slots));
        proof {
            assert(cache.keys@[slot as int] != POINT_CACHE_EMPTY);
        }
        copy_row(source, local, ndims, i, Ghost(n));
        cache.hits = cache.hits.wrapping_add(1);
        assert(cache.keys@ =~= cache.keys@.update(slot as int, key));
    } else {
        let source = row_slice(data, ndims, idx, Ghost(idx + 1));
        copy_row(source, local, ndims, i, Ghost(n));
        let ghost before = *cache;
        copy_row(source, &mut cache.data, ndims, slot, Ghost(slots));
        cache.keys.set(slot, key);
        cache.misses = cache.misses.wrapping_add(1);
        proof {
            assert forall|s: int|
                0 <= s < slots && (#[trigger] cache.keys@[s]) != POINT_CACHE_EMPTY implies row(
                cache.data@,
                ndims as int,
                s,
            ) == row(data@, ndims as int, cache.keys@[s] as int) by {
                if s != slot {
                    other_row_same(before.data@, cache.data@, slots, ndims as int, slot as int, s);
                    assert(before.keys@[s] == cache.keys@[s]);
                }
            }
        }
    }
}

/// A counter that wraps counts on from where it is.
proof fn counts_on(total: int, more: int)
    ensures
        (total % 0x1_0000_0000_0000_0000 + more) % 0x1_0000_0000_0000_0000 == (total + more)
            % 0x1_0000_0000_0000_0000,
{
}

/// Looking up one more point moves the keys and the hits on.
proof fn looked_up(keys: Seq<u32>, indices: Seq<usize>, log2: u32, i: int)
    requires
        0 <= i,
    ensures
        ({
            let key = indices[i] as u32;
            let slot = PointCache::slot_of(key, log2);
            let now = keys_after(keys, indices, log2, i);
            &&& keys_after(keys, indices, log2, i + 1) == now.update(slot, key)
            &&& hits_among(keys, indices, log2, i + 1) == hits_among(keys, indices, log2, i) + if now[slot]
                == key {
                1int
            } else {
                0
            }
        }),
{
}

/// Collects the rows of a leaf, reading them from the cache where it has them and leaving them
/// there where it has not. The result is that of reading the data set directly. Every lookup is
/// counted.
pub fn gather_rows_cached(
    data: &[Real],
    ndims: usize,
    indices: &[usize],
    local: &mut Vec<Real>,
    cache: &mut PointCache,
    log2: u32,
)
    requires
        rows_exist(data@, ndims as int, indices@),
        indices@.len() * ndims <= old(local)@.len(),
        forall|i: int| 0 <= i < indices@.len() ==> #[trigger] indices@[i] < POINT_CACHE_EMPTY,
        old(cache).wf(),
        old(cache).ndims == ndims,
        log2 <= POINT_CACHE_LOG2_MAX,
        power_of_two(log2 as nat) <= old(cache).keys@.len(),
        old(cache).coherent(data@),
    ensures
        final(local)@.len() == old(local)@.len(),
        gathered(data@, ndims as int, indices@, final(local)@),
        final(local)@.skip((indices@.len() * ndims) as int) == old(local)@.skip(
            (indices@.len() * ndims) as int,
        ),
        final(cache).wf(),
        final(cache).ndims == ndims,
        final(cache).keys@.len() == old(cache).keys@.len(),
        final(cache).coherent(data@),
        final(cache).keys@ == keys_after(
            old(cache).keys@,
            indices@,
            log2,
            indices@.len() as int,
        ),
        ({
            let hits = hits_among(old(cache).keys@, indices@, log2, indices@.len() as int);
            &&& final(cache).hits == (old(cache).hits + hits) % 0x1_0000_0000_0000_0000
            &&& final(cache).misses == (old(cache).misses + indices@.len() - hits)
                % 0x1_0000_0000_0000_0000
        }),
{
    let n: usize = indices.len();
    let ghost slots = cache.keys@.len() as int;
    let mut i: usize = 0;
    while i < n
        invariant
            i <= n == indices@.len(),
            rows_exist(data@, ndims as int, indices@),
            n * ndims <= local@.len(),
            local@.len() == old(local)@.len(),
            local@.skip(n * ndims) == old(local)@.skip(n * ndims),
            forall|x: int| 0 <= x < n ==> #[trigger] indices@[x] < POINT_CACHE_EMPTY,
            cache.wf(),
            cache.ndims == ndims,
            cache.keys@.len() == slots,
            log2 <= POINT_CACHE_LOG2_MAX,
            power_of_two(log2 as nat) <= slots,
            slots == old(cache).keys@.len(),
            cache.coherent(data@),
            cache.keys@ == keys_after(old(cache).keys@, indices@, log2, i as int),
            cache.hits == (old(cache).hits + hits_among(old(cache).keys@, indices@, log2, i as int))
                % 0x1_0000_0000_0000_0000,
            cache.misses == (old(cache).misses + i - hits_among(
                old(cache).keys@,
                indices@,
                log2,
                i as int,
            )) % 0x1_0000_0000_0000_0000,
            rows_in_place(data@, ndims as int, indices@, local@, i as int),
        decreases n - i,
    {
        let idx: usize = indices[i];
        let ghost prior = local@;
        assert((indices@[i as int] + 1) * ndims <= data@.len());
        gather_one(data, ndims, idx, i, local, cache, log2, Ghost(n as int));
        proof {
            let hits = hits_among(old(cache).keys@, indices@, log2, i as int);
            let more = hits_among(old(cache).keys@, indices@, log2, i + 1) - hits;
            looked_up(old(cache).keys@, indices@, log2, i as int);
            counts_on(old(cache).hits + hits, more);
            counts_on(old(cache).misses + i - hits, 1 - more);
            row_written(data@, ndims as int, indices@, prior, local@, i as int);
        }
        i += 1;
    }
}

} // verus!
