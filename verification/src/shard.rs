//! Builds that do not fit the memory at hand: estimating what a build takes, reading the vectors
//! of a shard, and remembering the start point between runs.

use crate::config::BuildSettings;
use crate::data_source::read_u32;
use crate::graph::{le4, push4, read4};
use crate::measure::{row_bounds, rows_apart};
use crate::sort::{argsort, ascending_covers, positions, sort_positions};
use vstd::prelude::*;

verus! {

/// Bytes of a reservoir entry.
pub const RESERVOIR_ENTRY_BYTES: u128 = 8;

/// Bytes of a sketch component.
pub const SKETCH_COMPONENT_BYTES: u128 = 4;

/// Bytes for what does not grow with the data set: 150 MiB.
pub const BUILD_OVERHEAD_BYTES: u128 = 157_286_400;

/// Bytes in front of the vectors of a file.
pub const FILE_HEADER_BYTES: u64 = 8;

/// Peak memory of a build, in bytes: data, reservoirs, sketches and a fixed overhead.
pub open spec fn shard_ram(
    npoints: int,
    ndims: int,
    type_size: int,
    l_max: int,
    num_hash_planes: int,
) -> int {
    npoints * ndims * type_size + npoints * l_max * RESERVOIR_ENTRY_BYTES + npoints
        * num_hash_planes * SKETCH_COMPONENT_BYTES + BUILD_OVERHEAD_BYTES
}

fn product3(a: u64, b: u64, c: u64) -> (r: Option<u128>)
    ensures
        r == if a * b * c <= u128::MAX {
            Some((a * b * c) as u128)
        } else {
            None::<u128>
        },
{
    assert(0 <= a * b <= 0xffff_ffff_ffff_ffff * 0xffff_ffff_ffff_ffff) by (nonlinear_arith)
        requires
            0 <= a <= 0xffff_ffff_ffff_ffff,
            0 <= b <= 0xffff_ffff_ffff_ffff,
    ;
    let ab: u128 = a as u128 * b as u128;
    ab.checked_mul(c as u128)
}

/// Estimates the peak memory of a build in bytes. There is no answer where it takes more than
/// 128 binary digits.
pub fn estimate_pipnn_shard_ram(
    npoints: u64,
    ndims: u64,
    type_size: usize,
    settings: &BuildSettings,
) -> (r: Option<u128>)
    ensures
        ({
            let bytes = shard_ram(
                npoints as int,
                ndims as int,
                type_size as int,
                settings.l_max as int,
                settings.num_hash_planes as int,
            );
            r == if bytes <= u128::MAX {
                Some(bytes as u128)
            } else {
                None::<u128>
            }
        }),
{
    let data = product3(npoints, ndims, type_size as u64);
    let reservoirs = product3(npoints, settings.l_max as u64, RESERVOIR_ENTRY_BYTES as u64);
    let sketches = product3(
        npoints,
        settings.num_hash_planes as u64,
        SKETCH_COMPONENT_BYTES as u64,
    );
    proof {
        let n = npoints as int;
        assert(0 <= n * ndims * type_size) by (nonlinear_arith)
            requires
                0 <= n,
                0 <= ndims,
                0 <= type_size,
        ;
        let l = settings.l_max as int;
        assert(0 <= n * l * 8) by (nonlinear_arith)
            requires
                0 <= n,
                0 <= l,
        ;
        let h = settings.num_hash_planes as int;
        assert(0 <= n * h * 4) by (nonlinear_arith)
            requires
                0 <= n,
                0 <= h,
        ;
    }
    match (data, reservoirs, sketches) {
        (Some(d), Some(r), Some(s)) => match d.checked_add(r) {
            Some(dr) => match dr.checked_add(s) {
                Some(drs) => drs.checked_add(BUILD_OVERHEAD_BYTES),
                None => None,
            },
            None => None,
        },
        _ => None,
    }
}

/// Tells whether a build has to be split into shards: its estimate exceeds the budget.
pub fn exceeds_budget(
    npoints: u64,
    ndims: u64,
    type_size: usize,
    settings: &BuildSettings,
    budget: u64,
) -> (r: bool)
    ensures
        r == (shard_ram(
            npoints as int,
            ndims as int,
            type_size as int,
            settings.l_max as int,
            settings.num_hash_planes as int,
        ) > budget),
{
    match estimate_pipnn_shard_ram(npoints, ndims, type_size, settings) {
        Some(bytes) => bytes > budget as u128,
        None => true,
    }
}

/// More points take more memory, in proportion but for the overhead.
pub proof fn ram_grows_with_points(
    npoints: int,
    factor: int,
    ndims: int,
    type_size: int,
    l_max: int,
    num_hash_planes: int,
)
    ensures
        shard_ram(factor * npoints, ndims, type_size, l_max, num_hash_planes)
            - BUILD_OVERHEAD_BYTES == factor * (shard_ram(
            npoints,
            ndims,
            type_size,
            l_max,
            num_hash_planes,
        ) - BUILD_OVERHEAD_BYTES),
{
    let a = npoints * ndims * type_size;
    let b = npoints * l_max * 8;
    let c = npoints * num_hash_planes * 4;
    assert((factor * npoints) * ndims * type_size == factor * a) by (nonlinear_arith)
        requires
            a == npoints * ndims * type_size,
    ;
    assert((factor * npoints) * l_max * 8 == factor * b) by (nonlinear_arith)
        requires
            b == npoints * l_max * 8,
    ;
    assert((factor * npoints) * num_hash_planes * 4 == factor * c) by (nonlinear_arith)
        requires
            c == npoints * num_hash_planes * 4,
    ;
    assert(factor * (a + b + c) == factor * a + factor * b + factor * c) by (nonlinear_arith);
}

/// One read of a shard: row `row` of the shard is the record at `position` of the file, and the
/// reader has to be moved there first if `seek` is set.
#[derive(Clone, Copy, Debug, PartialEq, Eq, Structural)]
pub struct RowRead {
    /// Row of the shard.
    pub row: usize,
    /// First byte of the record.
    pub position: u64,
    /// Whether the reader stands elsewhere.
    pub seek: bool,
}

/// The ids of a shard as sort keys.
pub open spec fn id_keys(id_map: Seq<u32>) -> Seq<u64> {
    id_map.map_values(|id: u32| id as u64)
}

/// Where the record of a point begins.
pub open spec fn record_position(id: u32, row_bytes: int) -> int {
    FILE_HEADER_BYTES + id * row_bytes
}

/// Where the reader stands before read `k`, when the reads go by `order`.
pub open spec fn standing(id_map: Seq<u32>, order: Seq<int>, row_bytes: int, k: int) -> int {
    if k <= 0 {
        FILE_HEADER_BYTES as int
    } else {
        record_position(id_map[order[k - 1]], row_bytes) + row_bytes
    }
}

proof fn position_bound(id: u32, row_bytes: int)
    requires
        0 <= row_bytes,
        FILE_HEADER_BYTES + 0x1_0000_0000 * row_bytes <= u64::MAX,
    ensures
        0 <= id * row_bytes,
        record_position(id, row_bytes) + row_bytes <= u64::MAX,
{
    assert(0 <= id * row_bytes <= 0xffff_ffff * row_bytes) by (nonlinear_arith)
        requires
            0 <= id <= 0xffff_ffff,
            0 <= row_bytes,
    ;
}

/// Read `k` of a shard: rows are read in the order of their records, and the reader moves where the
/// next record does not follow.
pub open spec fn planned(id_map: Seq<u32>, row_bytes: int, k: int) -> RowRead {
    let order = argsort(id_keys(id_map));
    let position = record_position(id_map[order[k]], row_bytes);
    RowRead {
        row: order[k] as usize,
        position: position as u64,
        seek: position != standing(id_map, order, row_bytes, k),
    }
}

/// Some read is for row `i`.
pub open spec fn row_read(reads: Seq<RowRead>, i: int) -> bool {
    exists|k: int| 0 <= k < reads.len() && (#[trigger] reads[k]).row == i
}

/// Lists the reads of a shard in the order of the file, so that the reader seldom has to move.
pub fn shard_reads(id_map: &[u32], row_bytes: usize) -> (r: Vec<RowRead>)
    requires
        FILE_HEADER_BYTES + 0x1_0000_0000 * row_bytes <= u64::MAX,
    ensures
        r@.len() == id_map@.len(),
        forall|k: int|
            0 <= k < r@.len() ==> {
                let order = argsort(id_keys(id_map@));
                &&& (#[trigger] r@[k]).row == order[k]
                &&& r@[k] == planned(id_map@, row_bytes as int, k)
                &&& r@[k].row < id_map@.len()
                &&& r@[k].position == record_position(id_map@[order[k]], row_bytes as int)
                &&& r@[k].seek == (r@[k].position != standing(
                    id_map@,
                    order,
                    row_bytes as int,
                    k,
                ))
            },
        forall|i: int| 0 <= i < id_map@.len() ==> #[trigger] row_read(r@, i),
{
    let mut keys: Vec<u64> = Vec::with_capacity(id_map.len());
    let mut i: usize = 0;
    while i < id_map.len()
        invariant
            i <= id_map@.len(),
            keys@ == id_keys(id_map@).take(i as int),
        decreases id_map@.len() - i,
    {
        keys.push(id_map[i] as u64);
        i += 1;
        assert(keys@ =~= id_keys(id_map@).take(i as int));
    }
    assert(keys@ =~= id_keys(id_map@));
    let sorted = sort_positions(&keys);
    let ghost order = argsort(id_keys(id_map@));
    let mut r: Vec<RowRead> = Vec::with_capacity(sorted.len());
    let mut at: u64 = FILE_HEADER_BYTES;
    let mut k: usize = 0;
    while k < sorted.len()
        invariant
            k <= sorted@.len(),
            sorted@.len() == id_map@.len(),
            order == positions(sorted@),
            FILE_HEADER_BYTES + 0x1_0000_0000 * row_bytes <= u64::MAX,
            forall|x: int| 0 <= x < sorted@.len() ==> #[trigger] sorted@[x] < id_map@.len(),
            at == standing(id_map@, order, row_bytes as int, k as int),
            r@.len() == k,
            forall|x: int|
                0 <= x < k ==> {
                    &&& (#[trigger] r@[x]).row == order[x]
                    &&& r@[x].row < id_map@.len()
                    &&& r@[x].position == record_position(id_map@[order[x]], row_bytes as int)
                    &&& r@[x].seek == (r@[x].position != standing(
                        id_map@,
                        order,
                        row_bytes as int,
                        x,
                    ))
                },
        decreases sorted@.len() - k,
    {
        let row: usize = sorted[k];
        assert(order[k as int] == row);
        let id: u32 = id_map[row];
        proof {
            position_bound(id, row_bytes as int);
        }
        let position: u64 = FILE_HEADER_BYTES + id as u64 * row_bytes as u64;
        r.push(RowRead { row, position, seek: position != at });
        at = position + row_bytes as u64;
        k += 1;
    }
    proof {
        assert forall|i: int| 0 <= i < id_map@.len() implies #[trigger] row_read(r@, i) by {
            ascending_covers(keys@, order, i);
            let k = choose|k: int| 0 <= k < order.len() && #[trigger] order[k] == i;
            assert(r@[k].row == i);
        }
    }
    r
}

/// The record of a point in a file.
pub open spec fn record(file: Seq<u8>, id: u32, row_bytes: int) -> Seq<u8> {
    file.subrange(record_position(id, row_bytes), record_position(id, row_bytes) + row_bytes)
}

/// The file holds a header and the records of all points of a shard.
pub open spec fn holds_shard(file: Seq<u8>, id_map: Seq<u32>, row_bytes: int) -> bool {
    &&& FILE_HEADER_BYTES <= file.len()
    &&& forall|i: int|
        0 <= i < id_map.len() ==> record_position(#[trigger] id_map[i], row_bytes) + row_bytes
            <= file.len()
}

/// Collects the records of a shard from a file, in the order of the shard. There is no answer
/// where the file is too short.
pub fn gather_shard_data(file: &[u8], id_map: &[u32], row_bytes: usize) -> (r: Option<Vec<u8>>)
    requires
        FILE_HEADER_BYTES + 0x1_0000_0000 * row_bytes <= u64::MAX,
        id_map@.len() * row_bytes <= usize::MAX,
    ensures
        r is Some <==> holds_shard(file@, id_map@, row_bytes as int),
        r matches Some(data) ==> {
            &&& data@.len() == id_map@.len() * row_bytes
            &&& forall|i: int|
                0 <= i < id_map@.len() ==> #[trigger] data@.subrange(
                    i * row_bytes,
                    i * row_bytes + row_bytes,
                ) == record(file@, id_map@[i], row_bytes as int)
        },
{
    assert(file.len() == file@.len());
    if (file.len() as u64) < FILE_HEADER_BYTES {
        return None;
    }
    let reads = shard_reads(id_map, row_bytes);
    let total: usize = id_map.len() * row_bytes;
    let mut data: Vec<u8> = vec![0u8; total];
    let mut k: usize = 0;
    while k < reads.len()
        invariant
            k <= reads@.len(),
            file.len() == file@.len(),
            FILE_HEADER_BYTES <= file@.len(),
            FILE_HEADER_BYTES + 0x1_0000_0000 * row_bytes <= u64::MAX,
            reads@.len() == id_map@.len(),
            data@.len() == id_map@.len() * row_bytes,
            data@.len() <= usize::MAX,
            forall|x: int|
                0 <= x < reads@.len() ==> {
                    &&& (#[trigger] reads@[x]).row < id_map@.len()
                    &&& reads@[x].position == record_position(
                        id_map@[reads@[x].row as int],
                        row_bytes as int,
                    )
                },
            forall|i: int| 0 <= i < id_map@.len() ==> #[trigger] row_read(reads@, i),
            forall|x: int|
                0 <= x < k ==> {
                    let i = (#[trigger] reads@[x]).row as int;
                    &&& reads@[x].position + row_bytes <= file@.len()
                    &&& data@.subrange(i * row_bytes, i * row_bytes + row_bytes) == record(
                        file@,
                        id_map@[i],
                        row_bytes as int,
                    )
                },
        decreases reads@.len() - k,
    {
        let read = reads[k];
        let ghost i = read.row as int;
        let ghost before = data@;
        proof {
            position_bound(id_map@[i], row_bytes as int);
            row_bounds(i, id_map@.len() as int, row_bytes as int);
        }
        if read.position + row_bytes as u64 > file.len() as u64 {
            assert(record_position(id_map@[i], row_bytes as int) + row_bytes > file@.len());
            return None;
        }
        let start: usize = read.row * row_bytes;
        let from: usize = read.position as usize;
        let mut b: usize = 0;
        while b < row_bytes
            invariant
                b <= row_bytes,
                data@.len() == before.len(),
                start == i * row_bytes,
                start + row_bytes <= data@.len(),
                data@.len() <= usize::MAX,
                from + row_bytes <= file@.len(),
                file.len() == file@.len(),
                forall|x: int|
                    0 <= x < data@.len() && !(start <= x < start + b) ==> #[trigger] data@[x]
                        == before[x],
                forall|x: int|
                    start <= x < start + b ==> #[trigger] data@[x] == file@[from + x - start],
            decreases row_bytes - b,
        {
            data.set(start + b, file[from + b]);
            b += 1;
        }
        proof {
            let w = row_bytes as int;
            assert(data@.subrange(i * w, i * w + w) =~= record(file@, id_map@[i], w));
            assert forall|x: int| 0 <= x < k + 1 implies ({
                let i = (#[trigger] reads@[x]).row as int;
                &&& reads@[x].position + row_bytes <= file@.len()
                &&& data@.subrange(i * row_bytes, i * row_bytes + row_bytes) == record(
                    file@,
                    id_map@[i],
                    row_bytes as int,
                )
            }) by {
                let j = reads@[x].row as int;
                if x < k && j != i {
                    row_bounds(j, id_map@.len() as int, w);
                    if i < j {
                        rows_apart(i, j, w);
                    } else {
                        rows_apart(j, i, w);
                    }
                    assert(data@.subrange(j * w, j * w + w) =~= before.subrange(j * w, j * w + w));
                }
            }
        }
        k += 1;
    }
    proof {
        assert forall|i: int| 0 <= i < id_map@.len() implies record_position(
            #[trigger] id_map@[i],
            row_bytes as int,
        ) + row_bytes <= file@.len() by {
            assert(row_read(reads@, i));
            let k = choose|k: int| 0 <= k < reads@.len() && (#[trigger] reads@[k]).row == i;
            assert(reads@[k].row == i);
        }
        assert forall|i: int| 0 <= i < id_map@.len() implies #[trigger] data@.subrange(
            i * row_bytes,
            i * row_bytes + row_bytes,
        ) == record(file@, id_map@[i], row_bytes as int) by {
            assert(row_read(reads@, i));
            let k = choose|k: int| 0 <= k < reads@.len() && (#[trigger] reads@[k]).row == i;
            assert(reads@[k].row == i);
        }
    }
    Some(data)
}

/// Why a start point cannot be loaded.
#[derive(Clone, Copy, Debug, PartialEq, Eq, Structural)]
pub enum StartPointError {
    /// There is no file.
    FileNotFound,
    /// The file ends too early.
    Io,
    /// The file holds no number.
    InvalidFileFormat,
}

/// The point that search begins at, kept between runs.
#[derive(Clone, Copy, Debug, PartialEq, Eq, Structural)]
pub struct StartPoint {
    id: u32,
}

/// The start point that a file holds: a matrix of 32-bit numbers behind its number of rows and of
/// columns, of which the first is taken.
pub open spec fn loaded(file: Option<Seq<u8>>) -> Result<int, StartPointError> {
    match file {
        None => Err(StartPointError::FileNotFound),
        Some(bytes) => if bytes.len() < 8 || bytes.len() < 8 + 4 * (read4(bytes, 0) * read4(
            bytes,
            4,
        )) {
            Err(StartPointError::Io)
        } else if read4(bytes, 0) == 0 || read4(bytes, 4) == 0 {
            Err(StartPointError::InvalidFileFormat)
        } else {
            Ok(read4(bytes, 8))
        },
    }
}

/// The file of a start point.
pub open spec fn saved(id: u32) -> Seq<u8> {
    le4(1) + le4(1) + le4(id)
}

impl StartPoint {
    /// The id of the point.
    pub closed spec fn spec_id(&self) -> u32 {
        self.id
    }

    /// Takes a point as start.
    pub fn new(id: u32) -> (r: Self)
        ensures
            r.spec_id() == id,
    {
        StartPoint { id }
    }

    /// The id of the point.
    pub fn id(&self) -> (r: u32)
        ensures
            r == self.spec_id(),
    {
        self.id
    }

    /// Reads the start point from the bytes of a file, if there is one.
    pub fn load(file: Option<&[u8]>) -> (r: Result<Self, StartPointError>)
        ensures
            match loaded(
                match file {
                    Some(bytes) => Some(bytes@),
                    None => None,
                },
            ) {
                Ok(id) => r matches Ok(s) && s.spec_id() == id,
                Err(e) => r == Err::<Self, StartPointError>(e),
            },
    {
        match file {
            None => Err(StartPointError::FileNotFound),
            Some(bytes) => {
                assert(bytes.len() == bytes@.len());
                if bytes.len() < 8 {
                    return Err(StartPointError::Io);
                }
                let rows: u32 = read_u32(bytes, 0);
                let columns: u32 = read_u32(bytes, 4);
                assert(0 <= rows * columns <= 0xffff_ffff * 0xffff_ffff) by (nonlinear_arith)
                    requires
                        0 <= rows <= 0xffff_ffff,
                        0 <= columns <= 0xffff_ffff,
                ;
                let count: u64 = rows as u64 * columns as u64;
                if (bytes.len() as u64 - 8) / 4 < count {
                    return Err(StartPointError::Io);
                }
                if rows == 0 || columns == 0 {
                    return Err(StartPointError::InvalidFileFormat);
                }
                assert(1 <= rows * columns) by (nonlinear_arith)
                    requires
                        1 <= rows,
                        1 <= columns,
                ;
                Ok(StartPoint { id: read_u32(bytes, 8) })
            },
        }
    }

    /// The bytes of the file that keeps the start point.
    pub fn save(&self) -> (r: Vec<u8>)
        ensures
            r@ == saved(self.spec_id()),
    {
        let mut r: Vec<u8> = Vec::new();
        push4(&mut r, 1);
        push4(&mut r, 1);
        push4(&mut r, self.id);
        assert(r@ =~= saved(self.id));
        r
    }
}

/// A start point that was saved is loaded again.
pub proof fn start_point_reads_back(id: u32)
    ensures
        loaded(Some(saved(id))) == Ok::<int, StartPointError>(id as int),
{
    let bytes = saved(id);
    crate::graph::le4_reads_back(1);
    crate::graph::le4_reads_back(id);
    assert(read4(bytes, 0) == read4(le4(1), 0));
    assert(read4(bytes, 4) == read4(le4(1), 0));
    assert(read4(bytes, 8) == read4(le4(id), 0));
    assert(read4(bytes, 0) * read4(bytes, 4) == 1);
}

} // verus!
