//! What counts and sizes add up to.

use crate::builder::wrapped;
use crate::cache::{chosen_log2, hits_among, keys_after, roomy_keys, PointCache};
use crate::candidate_pool::{all_numbers, empty_pool, offered_all, pool_history, Candidate};
use crate::data_source::window_len;
use crate::dispatch::{objections, remarks, IndexSource, IndexTQOperation, Remark};
use crate::exact::{total, total_of_more, units_worth, worth, zero_worth};
use crate::graph::{empties, le4, total_length};
use crate::layout_laws::lowest_byte_first;
use crate::measure::row;
use crate::medoid::{picked, sampled_points};
use crate::number::{bit_at, power_adds, power_grows, power_of_two, Real};
use crate::quantize::word_limit;
use crate::quantized::{component_number, QuantizedData};
use crate::quantizer::TurboQuantQuantizer;
use crate::reservoir::{
    absorb, bucket_of, first_farthest, first_farthest_is_farthest, slot_valid, Kept, SlotView,
};
use crate::shard::{
    holds_shard, id_keys, loaded, planned, record, record_position, saved, shard_ram,
    StartPointError,
};
use crate::sort::{argsort, argsort_ascending, before};
use crate::tq_codes::code_bytes;
use crate::tq_store::{load_verdict, TQLoadError};
use vstd::prelude::*;

verus! {

/// The total degree of a graph is the sum of the lengths of its lists, and the isolated points are
/// those whose list is empty.
pub proof fn degrees_add_up(lists: Seq<Vec<u32>>, m: int)
    requires
        0 <= m <= lists.len(),
    ensures
        total_length(lists, m) == total(
            lists.map_values(|list: Vec<u32>| list@.len() as int).take(m),
        ),
        empties(lists, m) == total(
            lists.map_values(
                |list: Vec<u32>|
                    if list@.len() == 0 {
                        1int
                    } else {
                        0int
                    },
            ).take(m),
        ),
    decreases m,
{
    let lengths = lists.map_values(|list: Vec<u32>| list@.len() as int);
    let marks = lists.map_values(
        |list: Vec<u32>|
            if list@.len() == 0 {
                1int
            } else {
                0int
            },
    );
    if m > 0 {
        degrees_add_up(lists, m - 1);
        total_of_more(lengths, m);
        total_of_more(marks, m);
    } else {
        assert(lengths.take(0) =~= Seq::<int>::empty());
        assert(marks.take(0) =~= Seq::<int>::empty());
    }
}

/// One more point costs its components, eight bytes for each place in its reservoir and four for
/// each hash plane; without points there is an overhead of one hundred and fifty mebibytes.
pub proof fn ram_of_one_more_point(
    npoints: int,
    ndims: int,
    type_size: int,
    l_max: int,
    num_hash_planes: int,
)
    ensures
        shard_ram(npoints + 1, ndims, type_size, l_max, num_hash_planes) - shard_ram(
            npoints,
            ndims,
            type_size,
            l_max,
            num_hash_planes,
        ) == ndims * type_size + 8 * l_max + 4 * num_hash_planes,
        shard_ram(0, ndims, type_size, l_max, num_hash_planes) == 150 * 1024 * 1024,
{
    assert((npoints + 1) * ndims * type_size == npoints * ndims * type_size + ndims * type_size)
        by (nonlinear_arith);
    assert((npoints + 1) * l_max * 8 == npoints * l_max * 8 + 8 * l_max) by (nonlinear_arith);
    assert((npoints + 1) * num_hash_planes * 4 == npoints * num_hash_planes * 4 + 4
        * num_hash_planes) by (nonlinear_arith);
    assert(0 * ndims * type_size == 0) by (nonlinear_arith);
    assert(0 * l_max * 8 == 0) by (nonlinear_arith);
    assert(0 * num_hash_planes * 4 == 0) by (nonlinear_arith);
}

/// A window has all points that follow its start, or as many of them as are asked for.
pub proof fn window_is_cut(all: int, start: int, count: Option<usize>)
    requires
        0 <= start,
        0 <= all,
    ensures
        ({
            let len = window_len(all, start, count);
            &&& 0 <= len
            &&& start <= all ==> start + len <= all
            &&& start >= all ==> len == 0
            &&& count matches Some(c) ==> len <= c
            &&& count is None && start <= all ==> start + len == all
            &&& count matches Some(c) ==> len == c || start >= all || start + len == all
        }),
{
}

/// A slot of a cache holds the point that was looked up in it last, or what it held before.
pub proof fn slots_hold_last_lookup(
    keys: Seq<u32>,
    indices: Seq<usize>,
    log2: u32,
    m: int,
    s: int,
)
    requires
        0 <= m <= indices.len(),
        0 <= s < keys.len(),
        forall|j: int|
            0 <= j < m ==> 0 <= PointCache::slot_of(#[trigger] indices[j] as u32, log2)
                < keys.len(),
    ensures
        keys_after(keys, indices, log2, m).len() == keys.len(),
        (forall|j: int| 0 <= j < m ==> PointCache::slot_of(#[trigger] indices[j] as u32, log2) != s)
            ==> keys_after(keys, indices, log2, m)[s] == keys[s],
        forall|j: int|
            0 <= j < m && PointCache::slot_of(#[trigger] indices[j] as u32, log2) == s && (forall|
                i: int,
            |
                j < i < m ==> PointCache::slot_of(#[trigger] indices[i] as u32, log2) != s)
                ==> keys_after(keys, indices, log2, m)[s] == indices[j] as u32,
    decreases m,
{
    if m > 0 {
        slots_hold_last_lookup(keys, indices, log2, m - 1, s);
        let at = PointCache::slot_of(indices[m - 1] as u32, log2);
        assert(0 <= at < keys.len());
    }
}

/// A lookup hits exactly if its slot holds the point at that time; hits are counted one by one.
pub proof fn hits_add_up(keys: Seq<u32>, indices: Seq<usize>, log2: u32, m: int)
    requires
        0 <= m <= indices.len(),
    ensures
        hits_among(keys, indices, log2, m) == total(
            Seq::new(
                m as nat,
                |j: int|
                    if keys_after(keys, indices, log2, j)[PointCache::slot_of(
                        indices[j] as u32,
                        log2,
                    )] == indices[j] as u32 {
                        1int
                    } else {
                        0int
                    },
            ),
        ),
    decreases m,
{
    let marks = Seq::new(
        m as nat,
        |j: int|
            if keys_after(keys, indices, log2, j)[PointCache::slot_of(indices[j] as u32, log2)]
                == indices[j] as u32 {
                1int
            } else {
                0int
            },
    );
    if m > 0 {
        hits_add_up(keys, indices, log2, m - 1);
        let front = Seq::new(
            (m - 1) as nat,
            |j: int|
                if keys_after(keys, indices, log2, j)[PointCache::slot_of(
                    indices[j] as u32,
                    log2,
                )] == indices[j] as u32 {
                    1int
                } else {
                    0int
                },
        );
        assert(marks.drop_last() =~= front);
    } else {
        assert(marks =~= Seq::<int>::empty());
    }
}

/// Of equally far entries of a slot the first is found.
pub proof fn farthest_is_first(entries: Seq<Kept>)
    requires
        entries.len() > 0,
    ensures
        0 <= first_farthest(entries) < entries.len(),
        forall|i: int|
            0 <= i < entries.len() ==> (#[trigger] entries[i]).dist <= entries[first_farthest(
                entries,
            )].dist,
        forall|i: int|
            0 <= i < first_farthest(entries) ==> (#[trigger] entries[i]).dist
                < entries[first_farthest(entries)].dist,
    decreases entries.len(),
{
    first_farthest_is_farthest(entries);
    if entries.len() > 1 {
        let front = entries.drop_last();
        farthest_is_first(front);
        assert forall|i: int| 0 <= i < first_farthest(entries) implies (#[trigger] entries[i]).dist
            < entries[first_farthest(entries)].dist by {
            assert(front[i].dist <= front[first_farthest(front)].dist);
            assert(entries[i] == front[i]);
        }
    }
}

/// A slot lets in a candidate of a new bucket if it has room, or if the candidate is strictly
/// closer than its farthest entry, which is then given up; a candidate of a bucket that has an
/// entry if it is strictly closer than that. Otherwise nothing changes.
pub proof fn slot_lets_in_closer(s: SlotView, l_max: nat, e: Kept)
    requires
        slot_valid(s, l_max),
    ensures
        ({
            let after = absorb(s, l_max, e);
            match bucket_of(s.entries, e.hash) {
                Some(i) => if e.dist < s.entries[i].dist {
                    after.entries == s.entries.update(i, e)
                } else {
                    after == s
                },
                None => if s.entries.len() < l_max {
                    after.entries == s.entries.push(e)
                } else if s.entries.len() > 0 && e.dist < s.entries[s.farthest].dist {
                    after.entries == s.entries.update(s.farthest, e)
                } else {
                    after == s
                },
            }
        }),
{
    if let Some(i) = bucket_of(s.entries, e.hash) {
        assert(exists|x: int|
            0 <= x < s.entries.len() && (#[trigger] s.entries[x]).hash == e.hash);
        assert(0 <= i < s.entries.len());
    }
}

/// A full pool turns away a candidate that is no closer than any of its entries. One that is closer
/// than the farthest takes the place of an entry that is as far as any.
pub proof fn pool_lets_in_closer(l_max: nat, history: Seq<Candidate>, e: Candidate)
    requires
        all_numbers(history),
        !e.1.nan(),
        0 < l_max <= history.len(),
    ensures
        ({
            let before = offered_all(empty_pool(), l_max, history);
            let after = offered_all(empty_pool(), l_max, history.push(e));
            &&& before.entries.len() == l_max
            &&& (forall|i: int| 0 <= i < l_max ==> (#[trigger] before.entries[i]).1.le(e.1))
                ==> after == before
            &&& (exists|i: int| 0 <= i < l_max && e.1.lt((#[trigger] before.entries[i]).1)) ==> {
                &&& 0 <= before.farthest < l_max
                &&& after.entries == before.entries.update(before.farthest, e)
                &&& forall|i: int|
                    0 <= i < l_max ==> (#[trigger] before.entries[i]).1.le(
                        before.entries[before.farthest].1,
                    )
            }
        }),
{
    pool_history(l_max, history);
    assert(history.push(e).drop_last() =~= history);
    let before = offered_all(empty_pool(), l_max, history);
    assert(before.entries[before.farthest].1.le(before.farthest_dist));
    if forall|i: int| 0 <= i < l_max ==> (#[trigger] before.entries[i]).1.le(e.1) {
        assert(before.entries[before.farthest].1.le(e.1));
    }
}

/// The record of a point follows an eight-byte header and the records of all points before it.
pub proof fn records_follow_header(file: Seq<u8>, id: u32, row_bytes: int, id_map: Seq<u32>)
    ensures
        record(file, id, row_bytes) == file.subrange(
            8 + id * row_bytes,
            8 + id * row_bytes + row_bytes,
        ),
        holds_shard(file, id_map, row_bytes) <==> 8 <= file.len() && forall|i: int|
            0 <= i < id_map.len() ==> 8 + #[trigger] id_map[i] * row_bytes + row_bytes
                <= file.len(),
{
    if 8 <= file.len() && forall|i: int|
        0 <= i < id_map.len() ==> 8 + #[trigger] id_map[i] * row_bytes + row_bytes
            <= file.len() {
        assert forall|i: int| 0 <= i < id_map.len() implies record_position(
            #[trigger] id_map[i],
            row_bytes,
        ) + row_bytes <= file.len() by {
            assert(8 + id_map[i] * row_bytes + row_bytes <= file.len());
        }
    }
}

/// The file of a start point holds one row, one column, and the point, each with the lowest byte
/// first.
pub proof fn start_point_file(id: u32)
    ensures
        saved(id).len() == 12,
        saved(id).take(8) == seq![1u8, 0, 0, 0, 1, 0, 0, 0],
        id == saved(id)[8] + 0x100 * saved(id)[9] + 0x1_0000 * saved(id)[10] + 0x100_0000 * saved(
            id,
        )[11],
{
    lowest_byte_first(id);
    assert(saved(id).take(8) =~= seq![1u8, 0, 0, 0, 1, 0, 0, 0]);
    assert(saved(id)[8] == le4(id)[0]);
    assert(saved(id)[9] == le4(id)[1]);
    assert(saved(id)[10] == le4(id)[2]);
    assert(saved(id)[11] == le4(id)[3]);
}

/// Growing a cache keeps the points in its slots, if their vectors are kept, and adds empty slots;
/// otherwise all slots are empty.
pub proof fn growing_keeps_points(keys: Seq<u32>, kept: bool, slots: nat)
    ensures
        ({
            let grown = roomy_keys(keys, kept, slots);
            &&& slots <= grown.len()
            &&& kept ==> grown.len() == slots || grown.len() == keys.len()
            &&& kept ==> keys.len() <= grown.len()
            &&& !kept ==> grown.len() == slots
            &&& forall|s: int|
                0 <= s < grown.len() ==> #[trigger] grown[s] == if kept && s < keys.len() {
                    keys[s]
                } else {
                    u32::MAX
                }
        }),
{
}

/// The number of slots is a power of two whose exponent is the one asked for, if it is from three
/// to twenty, and eleven otherwise.
pub proof fn exponents_in_range(setting: Option<u32>)
    ensures
        chosen_log2(setting) == match setting {
            Some(n) => if 3 <= n <= 20 {
                n
            } else {
                11
            },
            None => 11,
        },
{
}

/// Points are sampled with the same seed whatever the data set: all, or a hundred thousand.
pub proof fn sample_is_bounded(npoints: usize)
    ensures
        sampled_points(npoints) == picked(
            Seq::new(npoints as nat, |i: int| i as usize),
            42,
            if npoints <= 100_000 {
                npoints
            } else {
                100_000
            },
        ),
{
}

/// A request is taken exactly if nothing speaks against it; what does is counted.
pub proof fn objections_add_up(op: IndexTQOperation)
    ensures
        objections(op) == 0 <==> op.full_precision_matches && op.source != (IndexSource::Build {
            multi_insert: true,
        }),
        objections(op) == 2 <==> !op.full_precision_matches && op.source == (IndexSource::Build {
            multi_insert: true,
        }),
        objections(op) <= 2,
        remarks(Some(op)).contains(Remark::OtherDataType) <==> !op.data_type_matches,
        remarks(Some(op)).contains(Remark::NoMultiInsert) <==> op.source == (IndexSource::Build {
            multi_insert: true,
        }),
        remarks(Some(op)).len() == (if op.data_type_matches {
            0int
        } else {
            1int
        }) + (if op.source == (IndexSource::Build { multi_insert: true }) {
            1int
        } else {
            0int
        }),
        remarks(None).len() == 2,
        remarks(None)[0] == Remark::BuildAndSearch,
        remarks(None)[1] == Remark::RequiredData,
{
    let list = remarks(Some(op));
    if !op.data_type_matches {
        assert(list[0] == Remark::OtherDataType);
    }
    if op.source == (IndexSource::Build { multi_insert: true }) {
        assert(list[list.len() - 1] == Remark::NoMultiInsert);
    }
}

/// Point zero goes to the first slot, and each further point as many slots on as the odd multiplier
/// tells, round and round.
pub proof fn slots_go_round(key: u32, log2: u32)
    requires
        log2 <= 20,
        key < u32::MAX,
    ensures
        PointCache::slot_of(0, log2) == 0,
        PointCache::slot_of((key + 1) as u32, log2) == (PointCache::slot_of(key, log2)
            + 0x9E37_79B9_7F4A_7C15) % power_of_two(log2 as nat) as int,
{
    let n = power_of_two(log2 as nat) as int;
    let rest = power_of_two((64 - log2) as nat) as int;
    let mix: int = 0x9E37_79B9_7F4A_7C15;
    power_grows(0, log2 as nat);
    power_grows(0, (64 - log2) as nat);
    power_adds(log2 as nat, (64 - log2) as nat);
    word_limit();
    let a = key as int * mix;
    let b = (key + 1) * mix;
    assert(b == a + mix) by (nonlinear_arith)
        requires
            a == key as int * mix,
            b == (key + 1) * mix,
    ;
    vstd::arithmetic::div_mod::lemma_mod_mod(a, n, rest);
    vstd::arithmetic::div_mod::lemma_mod_mod(b, n, rest);
    vstd::arithmetic::div_mod::lemma_add_mod_noop(a, mix, n);
    vstd::arithmetic::div_mod::lemma_add_mod_noop(a % n, mix, n);
    vstd::arithmetic::div_mod::lemma_mod_twice(a, n);
    vstd::arithmetic::div_mod::lemma_small_mod(0, n as nat);
}

/// A component of a quantized vector, as a number, is worth its bit.
pub proof fn component_worth(q: QuantizedData, i: int, j: int)
    ensures
        bit_at(q.vector(i)[j / 64] as nat, (j % 64) as nat) ==> worth(
            component_number(q, i, j),
            1,
            0,
        ),
        !bit_at(q.vector(i)[j / 64] as nat, (j % 64) as nat) ==> worth(
            component_number(q, i, j),
            0,
            0,
        ),
{
    units_worth();
    zero_worth(0);
}

/// Component `d` of row `i` stands `d` places behind the rows before it.
pub proof fn rows_stand_in_order(data: Seq<Real>, ndims: int, n: int, i: int, d: int)
    requires
        0 <= i < n,
        0 <= d < ndims,
        n * ndims <= data.len(),
    ensures
        row(data, ndims, i).len() == ndims,
        row(data, ndims, i)[d] == data[i * ndims + d],
{
    crate::measure::row_bounds(i, n, ndims);
    assert((i + 1) * ndims == i * ndims + ndims) by (nonlinear_arith);
}

/// Counts are those of a 64-bit counter.
pub proof fn counts_wrap(count: int)
    requires
        0 <= count,
    ensures
        count <= u64::MAX ==> wrapped(count) == count,
        0 <= wrapped(count) <= u64::MAX,
        wrapped(count + 0x1_0000_0000_0000_0000) == wrapped(count),
{
}

/// Every reason for which the file of a store cannot be read: it is shorter than its header, its
/// records are not those of the quantizer, or it is shorter than its records.
pub proof fn reasons_against_store(file: Seq<u8>, q: TurboQuantQuantizer)
    ensures
        ({
            let v = load_verdict(file, q);
            let record = code_bytes(q.dims() as int, q.table().width() as usize) + 8;
            let rows = file[0] + 0x100 * file[1] + 0x1_0000 * file[2] + 0x100_0000 * file[3];
            let size = file[4] + 0x100 * file[5] + 0x1_0000 * file[6] + 0x100_0000 * file[7];
            &&& file.len() < 8 ==> v == Err::<(), TQLoadError>(TQLoadError::Truncated)
            &&& file.len() >= 8 && size != record ==> v == Err::<(), TQLoadError>(
                TQLoadError::RecordSize { expected: record as usize, actual: size as u32 },
            )
            &&& file.len() >= 8 && size == record && file.len() < 8 + rows * record ==> v == Err::<
                (),
                TQLoadError,
            >(TQLoadError::Truncated)
            &&& file.len() >= 8 && size == record && file.len() >= 8 + rows * record ==> v is Ok
        }),
{
}

/// Every reason for which a start point cannot be loaded: there is no file, it is too short, or its
/// matrix has no rows or no columns. Otherwise the first entry is taken.
pub proof fn reasons_against_start_point(bytes: Seq<u8>)
    ensures
        loaded(None) == Err::<int, StartPointError>(StartPointError::FileNotFound),
        ({
            let v = loaded(Some(bytes));
            let rows = bytes[0] + 0x100 * bytes[1] + 0x1_0000 * bytes[2] + 0x100_0000 * bytes[3];
            let columns = bytes[4] + 0x100 * bytes[5] + 0x1_0000 * bytes[6] + 0x100_0000 * bytes[7];
            let first = bytes[8] + 0x100 * bytes[9] + 0x1_0000 * bytes[10] + 0x100_0000 * bytes[11];
            let whole = 8 <= bytes.len() && 8 + 4 * (rows * columns) <= bytes.len();
            &&& !whole <==> v == Err::<int, StartPointError>(StartPointError::Io)
            &&& whole && (rows == 0 || columns == 0) <==> v == Err::<int, StartPointError>(
                StartPointError::InvalidFileFormat,
            )
            &&& whole && rows > 0 && columns > 0 ==> v == Ok::<int, StartPointError>(first)
        }),
{
}

/// The reads of a shard go through the file from front to back, each at the record of its row. The
/// reader moves before a read exactly if the record does not follow the one read last, or the
/// header.
pub proof fn reads_go_forward(id_map: Seq<u32>, row_bytes: int, k: int)
    requires
        0 <= k < id_map.len() <= usize::MAX,
        0 <= row_bytes,
        8 + 0x1_0000_0000 * row_bytes <= u64::MAX,
    ensures
        ({
            let read = planned(id_map, row_bytes, k);
            &&& read.row < id_map.len()
            &&& read.position == 8 + id_map[read.row as int] * row_bytes
            &&& k == 0 ==> read.seek == (read.position != 8)
            &&& k > 0 ==> {
                let last = planned(id_map, row_bytes, k - 1);
                &&& last.position <= read.position
                &&& last.row != read.row
                &&& read.seek == (read.position != last.position + row_bytes)
            }
        }),
{
    let keys = id_keys(id_map);
    let order = argsort(keys);
    argsort_ascending(keys);
    let id = id_map[order[k]];
    assert(0 <= order[k] < keys.len());
    assert(0 <= id * row_bytes <= 0x1_0000_0000 * row_bytes) by (nonlinear_arith)
        requires
            0 <= id < 0x1_0000_0000,
            0 <= row_bytes,
    ;
    if k > 0 {
        let prior = id_map[order[k - 1]];
        assert(before(keys, order[k - 1], order[k]));
        assert(0 <= order[k - 1] < keys.len());
        assert(prior <= id);
        assert(0 <= prior * row_bytes <= id * row_bytes) by (nonlinear_arith)
            requires
                0 <= prior <= id,
                0 <= row_bytes,
        ;
    }
}

} // verus!
