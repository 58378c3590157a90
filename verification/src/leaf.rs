//! Nearest neighbours within a leaf, from the lower triangle of its dot-product matrix.

use crate::arith::Arithmetic;
use crate::measure::{row_bounds, rows_apart};
use crate::metric::{distance_from_dot, norm, norm_of, pair_distance, Metric};
use crate::number::Real;
use crate::prune::rank_keys;
use crate::sort::{argsort, argsort_ascending, ascending, before, insertion_point};
use vstd::prelude::*;

verus! {

/// A neighbour inside a leaf and its distance.
#[derive(Clone, Copy, Debug, PartialEq, Eq, Structural)]
pub struct LeafNeighbor {
    /// Position in the leaf, not a point id.
    pub position: u32,
    /// Distance from the point of the row to `position`.
    pub distance: Real,
}

/// The mark of an unfilled place.
pub open spec fn vacant() -> LeafNeighbor {
    LeafNeighbor { position: u32::MAX, distance: Real::spec_max() }
}

impl LeafNeighbor {
    /// A neighbour.
    pub fn new(position: u32, distance: Real) -> (r: Self)
        ensures
            r == (LeafNeighbor { position, distance }),
    {
        LeafNeighbor { position, distance }
    }
}

impl Default for LeafNeighbor {
    fn default() -> (r: Self)
        ensures
            r == vacant(),
    {
        LeafNeighbor { position: u32::MAX, distance: Real::max_finite() }
    }
}

/// The input of neighbour selection.
#[derive(Clone, Copy, Debug)]
pub struct LeafTopK<'a> {
    /// Row-major `points * points` matrix. Only entries with `column <= row` are read.
    pub dots: &'a [Real],
    /// Number of points.
    pub points: usize,
    /// Metric that ranks pairs.
    pub metric: Metric,
}

/// Reusable storage.
#[derive(Debug)]
pub struct LeafTopKWorkspace {
    pub norms: Vec<Real>,
    pub worst: Vec<Real>,
}

impl LeafTopKWorkspace {
    /// Empty storage.
    pub fn new() -> (r: Self)
        ensures
            r.norms@.len() == 0,
            r.worst@.len() == 0,
    {
        LeafTopKWorkspace { norms: Vec::new(), worst: Vec::new() }
    }
}

impl Default for LeafTopKWorkspace {
    fn default() -> (r: Self)
        ensures
            r.norms@.len() == 0,
            r.worst@.len() == 0,
    {
        LeafTopKWorkspace::new()
    }
}

/// Why neighbour selection failed.
#[derive(Clone, Copy, Debug, PartialEq, Eq)]
pub enum LeafKernelError {
    /// The points cannot be numbered.
    TooManyPoints(usize),
    /// A shape is too large.
    ShapeOverflow { buffer: &'static str, rows: usize, cols: usize },
    /// A buffer does not have the length of its shape.
    InvalidBufferLength { buffer: &'static str, expected: usize, actual: usize },
    /// Storage could not be reserved.
    Allocation { buffer: &'static str, additional: usize },
    /// A row has too few neighbours whose distance can be ranked.
    InsufficientRankableNeighbors { row: usize, neighbors: usize },
}

/// Name of the matrix in errors.
pub open spec fn matrix_name() -> &'static str {
    "lower dot-product matrix"
}

/// Name of the output in errors.
pub open spec fn output_name() -> &'static str {
    "output"
}

/// Name of the norms in errors.
pub open spec fn norms_name() -> &'static str {
    "norms"
}

/// Name of the distances that a neighbour has to beat, in errors.
pub open spec fn worst_name() -> &'static str {
    "worst distances"
}

/// Distances of one point to the positions of its leaf.
pub type RowDistances = spec_fn(int) -> Real;

/// Whether position `p` can be a neighbour of position `t`.
pub open spec fn rankable(dist: RowDistances, t: int, p: int) -> bool {
    p != t && dist(p).lt(Real::spec_max())
}

/// The positions below `m` that can be neighbours of `t`, ascending.
pub open spec fn rankable_below(dist: RowDistances, t: int, m: int) -> Seq<int>
    decreases m,
{
    if m <= 0 {
        Seq::empty()
    } else if rankable(dist, t, m - 1) {
        rankable_below(dist, t, m - 1).push(m - 1)
    } else {
        rankable_below(dist, t, m - 1)
    }
}

/// The distances of listed positions.
pub open spec fn distances_of(dist: RowDistances, list: Seq<int>) -> Seq<Real> {
    list.map_values(|p: int| dist(p))
}

/// The positions below `m` that can be neighbours of `t`, from near to far, equal distances by
/// position.
pub open spec fn nearest_below(dist: RowDistances, t: int, m: int) -> Seq<int> {
    let list = rankable_below(dist, t, m);
    argsort(rank_keys(distances_of(dist, list))).map_values(|i: int| list[i])
}

/// The `k` nearest neighbours of `t` among the positions below `m`; places that cannot be filled
/// are vacant.
pub open spec fn leaf_row(dist: RowDistances, t: int, m: int, k: int) -> Seq<LeafNeighbor> {
    let near = nearest_below(dist, t, m);
    Seq::new(
        k as nat,
        |i: int|
            if i < near.len() {
                LeafNeighbor { position: near[i] as u32, distance: dist(near[i]) }
            } else {
                vacant()
            },
    )
}

/// Distances of position `t`, from the lower triangle of a dot-product matrix.
pub open spec fn triangle_distances<A: Arithmetic>(
    ops: A,
    metric: Metric,
    dots: Seq<Real>,
    points: int,
    t: int,
) -> RowDistances {
    |p: int|
        {
            let row = if p < t { t } else { p };
            let column = if p < t { p } else { t };
            distance_from_dot(
                ops,
                metric,
                dots[row * points + column],
                norm_of(ops, metric, dots[row * points + row]),
                norm_of(ops, metric, dots[column * points + column]),
            )
        }
}

/// How many neighbours each row gets.
pub open spec fn neighbors_per_row(points: int, k: int) -> int {
    if points == 0 {
        0
    } else if k < points - 1 {
        k
    } else {
        points - 1
    }
}

/// Row `t` of the result.
pub open spec fn result_row<A: Arithmetic>(
    ops: A,
    input: LeafTopK<'_>,
    t: int,
    k: int,
) -> Seq<LeafNeighbor> {
    leaf_row(
        triangle_distances(ops, input.metric, input.dots@, input.points as int, t),
        t,
        input.points as int,
        k,
    )
}

/// How many neighbours of row `t` can be ranked.
pub open spec fn rankable_count<A: Arithmetic>(ops: A, input: LeafTopK<'_>, t: int) -> nat {
    rankable_below(
        triangle_distances(ops, input.metric, input.dots@, input.points as int, t),
        t,
        input.points as int,
    ).len()
}

/// The verdict on the shapes of a request: the neighbours per row, or the first complaint.
pub open spec fn shape_verdict(
    points: int,
    matrix: int,
    k: int,
    output: int,
) -> Result<usize, LeafKernelError> {
    let per_row = neighbors_per_row(points, k);
    if points > u32::MAX {
        Err(LeafKernelError::TooManyPoints(points as usize))
    } else if points * points > usize::MAX {
        Err(
            LeafKernelError::ShapeOverflow {
                buffer: matrix_name(),
                rows: points as usize,
                cols: points as usize,
            },
        )
    } else if matrix != points * points {
        Err(
            LeafKernelError::InvalidBufferLength {
                buffer: matrix_name(),
                expected: (points * points) as usize,
                actual: matrix as usize,
            },
        )
    } else if points * per_row > usize::MAX {
        Err(
            LeafKernelError::ShapeOverflow {
                buffer: output_name(),
                rows: points as usize,
                cols: per_row as usize,
            },
        )
    } else if output != points * per_row {
        Err(
            LeafKernelError::InvalidBufferLength {
                buffer: output_name(),
                expected: (points * per_row) as usize,
                actual: output as usize,
            },
        )
    } else {
        Ok(per_row as usize)
    }
}

/// Number of entries of a shape.
pub fn checked_area(buffer: &'static str, rows: usize, cols: usize) -> (r: Result<
    usize,
    LeafKernelError,
>)
    ensures
        r == if rows * cols <= usize::MAX {
            Ok::<usize, LeafKernelError>((rows * cols) as usize)
        } else {
            Err(LeafKernelError::ShapeOverflow { buffer, rows, cols })
        },
{
    match rows.checked_mul(cols) {
        Some(area) => Ok(area),
        None => Err(LeafKernelError::ShapeOverflow { buffer, rows, cols }),
    }
}

/// Compares a buffer with its shape.
pub fn check_length(buffer: &'static str, actual: usize, expected: usize) -> (r: Result<
    (),
    LeafKernelError,
>)
    ensures
        r == if actual == expected {
            Ok::<(), LeafKernelError>(())
        } else {
            Err(LeafKernelError::InvalidBufferLength { buffer, expected, actual })
        },
{
    if actual == expected {
        Ok(())
    } else {
        Err(LeafKernelError::InvalidBufferLength { buffer, expected, actual })
    }
}

/// Checks the shapes of a request.
fn validate(input: LeafTopK<'_>, k: usize, output: usize) -> (r: Result<usize, LeafKernelError>)
    ensures
        r == shape_verdict(
            input.points as int,
            input.dots@.len() as int,
            k as int,
            output as int,
        ),
{
    if input.points > u32::MAX as usize {
        return Err(LeafKernelError::TooManyPoints(input.points));
    }
    let matrix_len: usize = match checked_area(
        "lower dot-product matrix",
        input.points,
        input.points,
    ) {
        Ok(area) => area,
        Err(e) => {
            return Err(e);
        },
    };
    match check_length("lower dot-product matrix", input.dots.len(), matrix_len) {
        Ok(_) => {},
        Err(e) => {
            return Err(e);
        },
    }
    let others: usize = input.points.saturating_sub(1);
    let actual_k: usize = if k < others { k } else { others };
    let output_len: usize = match checked_area("output", input.points, actual_k) {
        Ok(area) => area,
        Err(e) => {
            return Err(e);
        },
    };
    match check_length("output", output, output_len) {
        Ok(_) => {},
        Err(e) => {
            return Err(e);
        },
    }
    Ok(actual_k)
}

/// A list has been brought to a length: what is beyond it is gone, and what was added has the
/// given value.
pub open spec fn brought_to<T>(before: Seq<T>, after: Seq<T>, len: int, value: T) -> bool {
    &&& after.len() == len
    &&& forall|i: int|
        0 <= i < len ==> #[trigger] after[i] == if i < before.len() {
            before[i]
        } else {
            value
        }
}

/// Brings a buffer to the given length; what is added has the given value. Fails where the memory
/// for it cannot be had, and then changes nothing.
pub fn resize<T: Copy>(buffer: &'static str, values: &mut Vec<T>, len: usize, value: T) -> (r: Result<
    (),
    LeafKernelError,
>)
    ensures
        match r {
            Ok(_) => brought_to(old(values)@, final(values)@, len as int, value),
            Err(e) => {
                &&& old(values)@.len() < len
                &&& e == LeafKernelError::Allocation {
                    buffer,
                    additional: (len - old(values)@.len()) as usize,
                }
                &&& final(values)@ == old(values)@
            },
        },
{
    if len > values.len() {
        let additional: usize = len - values.len();
        match values.try_reserve(additional) {
            Ok(_) => {},
            Err(_) => {
                return Err(LeafKernelError::Allocation { buffer, additional });
            },
        }
        let ghost before = values@;
        while values.len() < len
            invariant
                before.len() <= values.len() <= len,
                forall|i: int|
                    0 <= i < values.len() ==> #[trigger] values@[i] == if i < before.len() {
                        before[i]
                    } else {
                        value
                    },
            decreases len - values.len(),
        {
            values.push(value);
        }
    } else {
        values.truncate(len);
    }
    Ok(())
}

proof fn rankable_below_bounds(dist: RowDistances, t: int, m: int)
    ensures
        rankable_below(dist, t, m).len() <= if m > 0 { m } else { 0 },
        forall|i: int|
            0 <= i < rankable_below(dist, t, m).len() ==> {
                &&& 0 <= #[trigger] rankable_below(dist, t, m)[i] < m
                &&& rankable(dist, t, rankable_below(dist, t, m)[i])
            },
    decreases m,
{
    if m > 0 {
        rankable_below_bounds(dist, t, m - 1);
    }
}

/// Among the neighbours listed for a row none repeats, none is the row itself, and all can be
/// ranked.
pub proof fn nearest_below_valid(dist: RowDistances, t: int, m: int)
    ensures
        nearest_below(dist, t, m).len() == rankable_below(dist, t, m).len(),
        forall|i: int|
            0 <= i < nearest_below(dist, t, m).len() ==> {
                &&& 0 <= #[trigger] nearest_below(dist, t, m)[i] < m
                &&& rankable(dist, t, nearest_below(dist, t, m)[i])
            },
{
    let list = rankable_below(dist, t, m);
    let keys = rank_keys(distances_of(dist, list));
    rankable_below_bounds(dist, t, m);
    argsort_ascending(keys);
    let near = nearest_below(dist, t, m);
    assert forall|i: int| 0 <= i < near.len() implies {
        &&& 0 <= #[trigger] near[i] < m
        &&& rankable(dist, t, near[i])
    } by {
        assert(0 <= argsort(keys)[i] < keys.len());
        assert(near[i] == list[argsort(keys)[i]]);
    }
}

/// Whether one neighbour comes before another: by distance, equal distances by position.
pub open spec fn closer(a: LeafNeighbor, b: LeafNeighbor) -> bool {
    a.distance.lt(b.distance) || (a.distance.rank() == b.distance.rank() && a.position < b.position)
}

proof fn rankable_below_complete(dist: RowDistances, t: int, m: int)
    ensures
        forall|p: int|
            0 <= p < m && #[trigger] rankable(dist, t, p) ==> rankable_below(dist, t, m).contains(p),
        forall|i: int, j: int|
            0 <= i < j < rankable_below(dist, t, m).len() ==> #[trigger] rankable_below(
                dist,
                t,
                m,
            )[i] < #[trigger] rankable_below(dist, t, m)[j],
    decreases m,
{
    if m > 0 {
        rankable_below_complete(dist, t, m - 1);
        rankable_below_bounds(dist, t, m - 1);
        let front = rankable_below(dist, t, m - 1);
        let all = rankable_below(dist, t, m);
        assert forall|p: int| 0 <= p < m && #[trigger] rankable(dist, t, p) implies all.contains(
            p,
        ) by {
            if p < m - 1 {
                let i = choose|i: int| 0 <= i < front.len() && front[i] == p;
                assert(all[i] == p);
            } else {
                assert(all[front.len() as int] == p);
            }
        }
    }
}

/// The row of a position lists its neighbours from near to far, and every position that could be
/// a neighbour but is left out comes after all of them.
pub proof fn leaf_row_nearest(dist: RowDistances, t: int, m: int, k: int)
    requires
        0 <= m <= u32::MAX,
        0 <= k,
    ensures
        forall|i: int, j: int|
            0 <= i < j < k && j < nearest_below(dist, t, m).len() ==> closer(
                #[trigger] leaf_row(dist, t, m, k)[i],
                #[trigger] leaf_row(dist, t, m, k)[j],
            ),
        forall|p: int|
            0 <= p < m && #[trigger] rankable(dist, t, p) ==> {
                let own = LeafNeighbor { position: p as u32, distance: dist(p) };
                ||| leaf_row(dist, t, m, k).contains(own)
                ||| forall|i: int| 0 <= i < k ==> closer(#[trigger] leaf_row(dist, t, m, k)[i], own)
            },
{
    let list = rankable_below(dist, t, m);
    let keys = rank_keys(distances_of(dist, list));
    let order = argsort(keys);
    let near = nearest_below(dist, t, m);
    let row = leaf_row(dist, t, m, k);
    argsort_ascending(keys);
    rankable_below_bounds(dist, t, m);
    rankable_below_complete(dist, t, m);
    nearest_below_valid(dist, t, m);
    assert forall|i: int, j: int| 0 <= i < j < near.len() implies {
        let a = LeafNeighbor { position: #[trigger] near[i] as u32, distance: dist(near[i]) };
        let b = LeafNeighbor { position: #[trigger] near[j] as u32, distance: dist(near[j]) };
        closer(a, b)
    } by {
        assert(before(keys, order[i], order[j]));
        assert(rankable(dist, t, near[i]) && rankable(dist, t, near[j]));
        assert(near[i] == list[order[i]] && near[j] == list[order[j]]);
        assert(keys[order[i]] == dist(near[i]).rank() as u64);
        assert(keys[order[j]] == dist(near[j]).rank() as u64);
        if order[i] < order[j] {
            assert(list[order[i]] < list[order[j]]);
        }
    }
    assert forall|p: int| 0 <= p < m && #[trigger] rankable(dist, t, p) implies {
        let own = LeafNeighbor { position: p as u32, distance: dist(p) };
        ||| row.contains(own)
        ||| forall|i: int| 0 <= i < k ==> closer(#[trigger] row[i], own)
    } by {
        let own = LeafNeighbor { position: p as u32, distance: dist(p) };
        let a = choose|a: int| 0 <= a < list.len() && list[a] == p;
        crate::sort::ascending_covers(keys, order, a);
        let j = choose|j: int| 0 <= j < order.len() && #[trigger] order[j] == a;
        assert(near[j] == p);
        if j < k {
            assert(row[j] == own);
        } else {
            assert forall|i: int| 0 <= i < k implies closer(#[trigger] row[i], own) by {
                assert(near[i] < m && near[j] == p);
            }
        }
    }
}

/// How one more position changes the row of `t`.
proof fn leaf_row_step(dist: RowDistances, t: int, m: int, k: int) -> (at: int)
    requires
        0 <= m,
        1 <= k,
    ensures
        0 <= at,
        !rankable(dist, t, m) ==> leaf_row(dist, t, m + 1, k) == leaf_row(dist, t, m, k),
        rankable(dist, t, m) ==> {
            &&& forall|i: int|
                0 <= i < k && i < at ==> (#[trigger] leaf_row(dist, t, m, k)[i]).distance.le(dist(m))
            &&& forall|i: int|
                at <= i < k ==> dist(m).lt((#[trigger] leaf_row(dist, t, m, k)[i]).distance)
            &&& leaf_row(dist, t, m + 1, k) == if at >= k {
                leaf_row(dist, t, m, k)
            } else {
                leaf_row(dist, t, m, k).insert(
                    at,
                    LeafNeighbor { position: m as u32, distance: dist(m) },
                ).take(k)
            }
        },
{
    if !rankable(dist, t, m) {
        0
    } else {
        let list = rankable_below(dist, t, m);
        let more = rankable_below(dist, t, m + 1);
        let keys = rank_keys(distances_of(dist, list));
        let more_keys = rank_keys(distances_of(dist, more));
        assert(more == list.push(m));
        assert(more_keys.drop_last() =~= keys);
        let order = argsort(keys);
        let last = list.len() as int;
        let at = insertion_point(more_keys, order, last);
        assert(argsort(more_keys) == order.insert(at, last));
        argsort_ascending(keys);
        rankable_below_bounds(dist, t, m);
        assert(ascending(more_keys, order)) by {
            assert forall|i: int, j: int| 0 <= i < j < order.len() implies before(
                more_keys,
                #[trigger] order[i],
                #[trigger] order[j],
            ) by {
                assert(before(keys, order[i], order[j]));
                assert(more_keys[order[i]] == keys[order[i]]);
                assert(more_keys[order[j]] == keys[order[j]]);
            }
        }
        crate::sort::insertion_point_splits(more_keys, order, last);
        let near = nearest_below(dist, t, m);
        let near_more = nearest_below(dist, t, m + 1);
        assert(near_more =~= near.insert(at, m)) by {
            assert forall|i: int| 0 <= i < near_more.len() implies near_more[i] == near.insert(
                at,
                m,
            )[i] by {
                assert(near_more[i] == more[argsort(more_keys)[i]]);
                if i < at {
                    assert(argsort(more_keys)[i] == order[i]);
                } else if i > at {
                    assert(argsort(more_keys)[i] == order[i - 1]);
                }
            }
        }
        let row = leaf_row(dist, t, m, k);
        let row_more = leaf_row(dist, t, m + 1, k);
        assert forall|i: int| 0 <= i < near.len() implies {
            &&& #[trigger] near[i] == list[order[i]]
            &&& !dist(near[i]).nan()
            &&& more_keys[order[i]] == dist(near[i]).rank() as u64
        } by {
            assert(rankable(dist, t, list[order[i]]));
            assert(more_keys[order[i]] == keys[order[i]]);
        }
        assert(more_keys[last] == dist(m).rank() as u64);
        assert forall|i: int| 0 <= i < k && i < at implies (#[trigger] row[i]).distance.le(
            dist(m),
        ) by {
            assert(before(more_keys, order[i], last));
            assert(near[i] == list[order[i]]);
        }
        assert forall|i: int| at <= i < k implies dist(m).lt((#[trigger] row[i]).distance) by {
            if i < near.len() {
                assert(before(more_keys, last, order[i]));
                assert(near[i] == list[order[i]]);
            }
        }
        let new = LeafNeighbor { position: m as u32, distance: dist(m) };
        if at >= k {
            assert(row_more =~= row);
        } else {
            assert(row_more =~= row.insert(at, new).take(k));
        }
        at
    }
}

/// Puts position `position` of row `t` into the `k` places from `start` on, which hold the nearest
/// of the positions below it; it is nearer than the last of them.
pub(crate) fn insert_at(
    output: &mut [LeafNeighbor],
    k: usize,
    start: usize,
    position: u32,
    distance: Real,
    Ghost(dist): Ghost<RowDistances>,
    Ghost(t): Ghost<int>,
)
    requires
        1 <= k,
        start + k <= old(output)@.len(),
        position != t,
        distance == dist(position as int),
        old(output)@.subrange(start as int, start + k) == leaf_row(
            dist,
            t,
            position as int,
            k as int,
        ),
        distance.lt(old(output)@[start + k - 1].distance),
    ensures
        final(output)@.len() == old(output)@.len(),
        final(output)@.subrange(start as int, start + k) == leaf_row(
            dist,
            t,
            position + 1,
            k as int,
        ),
        forall|i: int|
            0 <= i < old(output)@.len() && !(start <= i < start + k) ==> (#[trigger] final(output)@[i])
                == old(output)@[i],
{
    let ghost all = output@;
    let ghost before_row = leaf_row(dist, t, position as int, k as int);
    let ghost after_row = leaf_row(dist, t, position + 1, k as int);
    let ghost at = leaf_row_step(dist, t, position as int, k as int);
    let ghost new = LeafNeighbor { position, distance };
    proof {
        assert(output.len() == output@.len());
        assert forall|i: int| 0 <= i < k implies #[trigger] before_row[i] == all[start + i] by {
            assert(all.subrange(start as int, start + k)[i] == all[start + i]);
        }
        assert(before_row[k - 1] == all[start + (k - 1)]);
        assert(rankable(dist, t, position as int)) by {
            nearest_below_valid(dist, t, position as int);
        }
        assert(at < k);
        assert(before_row.insert(at, new).take(k as int) == after_row);
    }
    output[start + (k - 1)] = LeafNeighbor::new(position, distance);
    let mut index: usize = k - 1;
    while index > 0 && distance.is_less(output[start + (index - 1)].distance)
        invariant
            index < k,
            at < k,
            start + k <= all.len() <= usize::MAX,
            output@.len() == all.len(),
            new == (LeafNeighbor { position, distance }),
            before_row.len() == k,
            forall|i: int| 0 <= i < k ==> #[trigger] before_row[i] == all[start + i],
            forall|i: int| 0 <= i < index ==> #[trigger] output@[start + i] == all[start + i],
            output@[start + index] == new,
            forall|i: int|
                index < i < k ==> #[trigger] output@[start + i] == all[start + i - 1],
            forall|i: int|
                0 <= i < all.len() && !(start <= i < start + k) ==> #[trigger] output@[i] == all[i],
            forall|i: int| 0 <= i < k && i < at ==> (#[trigger] before_row[i]).distance.le(distance),
            at <= index,
        decreases index,
    {
        let ghost prior = output@;
        proof {
            assert(prior[start + (index - 1)] == all[start + (index - 1)]);
            assert(before_row[index - 1] == all[start + (index - 1)]);
        }
        let moved = output[start + (index - 1)];
        output[start + index] = moved;
        output[start + (index - 1)] = LeafNeighbor::new(position, distance);
        index -= 1;
        proof {
            assert forall|i: int| index < i < k implies #[trigger] output@[start + i] == all[start
                + i - 1] by {
                if i > index + 1 {
                    assert(prior[start + i] == all[start + i - 1]);
                }
            }
            assert forall|i: int| 0 <= i < index implies #[trigger] output@[start + i] == all[start
                + i] by {
                assert(prior[start + i] == all[start + i]);
            }
        }
    }
    proof {
        assert(index == at) by {
            if index > at {
                assert(output@[start + (index - 1)] == all[start + (index - 1)]);
                assert(before_row[index - 1] == all[start + (index - 1)]);
                assert(distance.lt(before_row[index - 1].distance));
            }
        }
        let got = output@.subrange(start as int, start + k);
        assert forall|i: int| 0 <= i < k implies got[i] == after_row[i] by {
            assert(got[i] == output@[start + i]);
            assert(after_row[i] == before_row.insert(at, new)[i]);
            if i < at {
                assert(before_row[i] == all[start + i]);
            } else if i > at {
                assert(before_row[i - 1] == all[start + (i - 1)]);
                assert(output@[start + i] == all[start + i - 1]);
            }
        }
        assert(got =~= after_row);
    }
}

/// A position that is no nearer than the last place of a row does not change the row.
pub(crate) proof fn leaf_row_keeps(dist: RowDistances, t: int, m: int, k: int)
    requires
        0 <= m,
        1 <= k,
        !dist(m).lt(leaf_row(dist, t, m, k)[k - 1].distance),
    ensures
        leaf_row(dist, t, m + 1, k) == leaf_row(dist, t, m, k),
{
    let at = leaf_row_step(dist, t, m, k);
}

/// Offers position `position` at distance `distance` to row `row` of the output.
fn insert_row(
    output: &mut [LeafNeighbor],
    worst: &mut Vec<Real>,
    k: usize,
    row: usize,
    position: u32,
    distance: Real,
    Ghost(dist): Ghost<RowDistances>,
)
    requires
        1 <= k,
        row * k + k <= old(output)@.len(),
        row < old(worst)@.len(),
        position != row,
        distance == dist(position as int),
        old(output)@.subrange(row * k, row * k + k) == leaf_row(
            dist,
            row as int,
            position as int,
            k as int,
        ),
        old(worst)@[row as int] == old(output)@[row * k + k - 1].distance,
    ensures
        final(output)@.len() == old(output)@.len(),
        final(output)@.subrange(row * k, row * k + k) == leaf_row(
            dist,
            row as int,
            position + 1,
            k as int,
        ),
        forall|i: int|
            0 <= i < old(output)@.len() && !(row * k <= i < row * k + k) ==> (#[trigger] final(output)@[i])
                == old(output)@[i],
        final(worst)@ == old(worst)@.update(
            row as int,
            final(output)@[row * k + k - 1].distance,
        ),
{
    proof {
        assert(output.len() == output@.len());
        assert(0 <= row * k) by (nonlinear_arith)
            requires
                0 <= row,
                0 <= k,
        ;
        assert(output@.subrange(row * k, row * k + k)[k - 1] == output@[row * k + k - 1]);
    }
    if !distance.is_less(worst[row]) {
        proof {
            leaf_row_keeps(dist, row as int, position as int, k as int);
            assert(worst@ =~= worst@.update(row as int, output@[row * k + k - 1].distance));
        }
        return ;
    }
    let start: usize = row * k;
    insert_at(output, k, start, position, distance, Ghost(dist), Ghost(row as int));
    let last = output[start + (k - 1)];
    worst.set(row, last.distance);
}

/// Positions that row `t` has been offered once the pairs before `(row, column)` have been
/// scanned.
spec fn offered(t: int, row: int, column: int) -> int {
    if t < column {
        row + 1
    } else if t < row {
        row
    } else if t == row {
        column
    } else {
        0
    }
}

/// Every row of `output` holds its nearest neighbours among the positions offered to it.
spec fn scanned<A: Arithmetic>(
    ops: A,
    input: LeafTopK<'_>,
    k: int,
    output: Seq<LeafNeighbor>,
    worst: Seq<Real>,
    row: int,
    column: int,
) -> bool {
    let n = input.points as int;
    &&& output.len() == n * k
    &&& worst.len() == n
    &&& forall|t: int|
        0 <= t < n ==> {
            &&& #[trigger] output.subrange(t * k, t * k + k) == leaf_row(
                triangle_distances(ops, input.metric, input.dots@, n, t),
                t,
                offered(t, row, column),
                k,
            )
            &&& worst[t] == output[t * k + k - 1].distance
        }
}

/// A change confined to one row leaves the others as they are.
proof fn other_rows_same(
    before: Seq<LeafNeighbor>,
    after: Seq<LeafNeighbor>,
    n: int,
    k: int,
    row: int,
    t: int,
)
    requires
        before.len() == n * k,
        after.len() == n * k,
        1 <= k,
        0 <= row < n,
        0 <= t < n,
        t != row,
        forall|i: int|
            0 <= i < before.len() && !(row * k <= i < row * k + k) ==> #[trigger] after[i]
                == before[i],
    ensures
        after.subrange(t * k, t * k + k) == before.subrange(t * k, t * k + k),
        after[t * k + k - 1] == before[t * k + k - 1],
{
    row_bounds(t, n, k);
    row_bounds(row, n, k);
    if t < row {
        rows_apart(t, row, k);
    } else {
        rows_apart(row, t, k);
    }
    assert(after.subrange(t * k, t * k + k) =~= before.subrange(t * k, t * k + k));
}

/// Scans the strict lower triangle once; every pair is offered to both of its rows.
fn process_pairs<A: Arithmetic>(
    ops: &A,
    input: LeafTopK<'_>,
    k: usize,
    output: &mut [LeafNeighbor],
    norms: &Vec<Real>,
    worst: &mut Vec<Real>,
)
    requires
        ops.ready(),
        1 <= k,
        1 <= input.points <= u32::MAX,
        input.dots@.len() == input.points * input.points,
        input.dots@.len() <= usize::MAX,
        old(output)@.len() <= usize::MAX,
        norms@.len() == input.points,
        forall|t: int|
            0 <= t < input.points ==> #[trigger] norms@[t] == norm_of(
                *ops,
                input.metric,
                input.dots@[t * input.points + t],
            ),
        scanned(*ops, input, k as int, old(output)@, old(worst)@, 0, 0),
    ensures
        scanned(
            *ops,
            input,
            k as int,
            final(output)@,
            final(worst)@,
            input.points as int,
            0,
        ),
{
    let n: usize = input.points;
    let mut row: usize = 1;
    proof {
        assert forall|t: int| 0 <= t < n implies offered(t, 0, 0) == #[trigger] offered(t, 1, 0) || t
            == 0 by {}
        let dist = triangle_distances(*ops, input.metric, input.dots@, n as int, 0);
        leaf_row_self(dist, 0, k as int);
        assert(scanned(*ops, input, k as int, output@, worst@, 1, 0)) by {
            assert forall|t: int| 0 <= t < n implies #[trigger] output@.subrange(
                t * k,
                t * k + k,
            ) == leaf_row(
                triangle_distances(*ops, input.metric, input.dots@, n as int, t),
                t,
                offered(t, 1, 0),
                k as int,
            ) && worst@[t] == output@[t * k + k - 1].distance by {}
        }
    }
    while row < n
        invariant
            1 <= row <= n,
            n == input.points,
            ops.ready(),
            1 <= k,
            n <= u32::MAX,
            input.dots@.len() == n * n,
            input.dots@.len() <= usize::MAX,
            output@.len() <= usize::MAX,
            norms@.len() == n,
            forall|t: int|
                0 <= t < n ==> #[trigger] norms@[t] == norm_of(
                    *ops,
                    input.metric,
                    input.dots@[t * n + t],
                ),
            scanned(*ops, input, k as int, output@, worst@, row as int, 0),
        decreases n - row,
    {
        let mut column: usize = 0;
        while column < row
            invariant
                1 <= row < n,
                column <= row,
                n == input.points,
                ops.ready(),
                1 <= k,
                n <= u32::MAX,
                input.dots@.len() == n * n,
                input.dots@.len() <= usize::MAX,
                output@.len() <= usize::MAX,
                norms@.len() == n,
                forall|t: int|
                    0 <= t < n ==> #[trigger] norms@[t] == norm_of(
                        *ops,
                        input.metric,
                        input.dots@[t * n + t],
                    ),
                scanned(*ops, input, k as int, output@, worst@, row as int, column as int),
            decreases row - column,
        {
            proof {
                row_bounds(row as int, n as int, n as int);
                row_bounds(row as int, n as int, k as int);
                row_bounds(column as int, n as int, k as int);
            }
            let dot = input.dots[row * n + column];
            let distance = pair_distance(ops, input.metric, dot, norms[row], norms[column]);
            let ghost dist_row = triangle_distances(
                *ops,
                input.metric,
                input.dots@,
                n as int,
                row as int,
            );
            let ghost dist_column = triangle_distances(
                *ops,
                input.metric,
                input.dots@,
                n as int,
                column as int,
            );
            let ghost before_output = output@;
            let ghost before_worst = worst@;
            proof {
                assert(distance == dist_row(column as int));
                assert(distance == dist_column(row as int));
                assert(output@.subrange(row * k, row * k + k).len() == k);
                assert(output@.subrange(column * k, column * k + k).len() == k);
            }
            insert_row(output, worst, k, row, column as u32, distance, Ghost(dist_row));
            let ghost mid_output = output@;
            let ghost mid_worst = worst@;
            proof {
                other_rows_same(before_output, mid_output, n as int, k as int, row as int, column as int);
                assert(mid_worst[column as int] == before_worst[column as int]);
            }
            insert_row(output, worst, k, column, row as u32, distance, Ghost(dist_column));
            proof {
                other_rows_same(mid_output, output@, n as int, k as int, column as int, row as int);
                assert forall|t: int| 0 <= t < n implies #[trigger] output@.subrange(
                    t * k,
                    t * k + k,
                ) == leaf_row(
                    triangle_distances(*ops, input.metric, input.dots@, n as int, t),
                    t,
                    offered(t, row as int, column + 1),
                    k as int,
                ) && worst@[t] == output@[t * k + k - 1].distance by {
                    if t != row && t != column {
                        other_rows_same(before_output, mid_output, n as int, k as int, row as int, t);
                        other_rows_same(mid_output, output@, n as int, k as int, column as int, t);
                        assert(before_output.subrange(t * k, t * k + k).len() == k) by {
                            row_bounds(t, n as int, k as int);
                        }
                    }
                }
            }
            column += 1;
        }
        proof {
            let dist = triangle_distances(*ops, input.metric, input.dots@, n as int, row as int);
            leaf_row_self(dist, row as int, k as int);
            assert forall|t: int| 0 <= t < n implies #[trigger] output@.subrange(
                t * k,
                t * k + k,
            ) == leaf_row(
                triangle_distances(*ops, input.metric, input.dots@, n as int, t),
                t,
                offered(t, row + 1, 0),
                k as int,
            ) && worst@[t] == output@[t * k + k - 1].distance by {}
        }
        row += 1;
    }
}

/// A row is not its own neighbour.
pub(crate) proof fn leaf_row_self(dist: RowDistances, t: int, k: int)
    requires
        0 <= t,
        1 <= k,
    ensures
        leaf_row(dist, t, t + 1, k) == leaf_row(dist, t, t, k),
{
    leaf_row_step(dist, t, t, k);
}

/// The contents of the output after a successful selection: row by row the nearest neighbours.
pub open spec fn holds_rows<A: Arithmetic>(
    ops: A,
    input: LeafTopK<'_>,
    k: int,
    output: Seq<LeafNeighbor>,
) -> bool {
    forall|t: int|
        0 <= t < input.points ==> #[trigger] output.subrange(t * k, t * k + k) == result_row(
            ops,
            input,
            t,
            k,
        )
}

/// The verdict on a selection: the neighbours per row, or the first row that has too few.
pub open spec fn selection_verdict<A: Arithmetic>(
    ops: A,
    input: LeafTopK<'_>,
    per_row: int,
    r: Result<usize, LeafKernelError>,
) -> bool {
    match r {
        Ok(got) => {
            &&& got == per_row
            &&& forall|t: int|
                0 <= t < input.points ==> #[trigger] rankable_count(ops, input, t) >= per_row
        },
        Err(LeafKernelError::InsufficientRankableNeighbors { row, neighbors }) => {
            &&& neighbors == per_row
            &&& row < input.points
            &&& rankable_count(ops, input, row as int) < per_row
            &&& forall|t: int|
                0 <= t < row ==> #[trigger] rankable_count(ops, input, t) >= per_row
        },
        Err(_) => false,
    }
}

/// The norm of every point of a leaf.
pub open spec fn holds_norms<A: Arithmetic>(ops: A, input: LeafTopK<'_>, norms: Seq<Real>) -> bool {
    &&& norms.len() == input.points
    &&& forall|t: int|
        0 <= t < input.points ==> #[trigger] norms[t] == norm_of(
            ops,
            input.metric,
            input.dots@[t * input.points + t],
        )
}

/// The last distance of every row of the output.
pub open spec fn holds_worst(
    n: int,
    per_row: int,
    output: Seq<LeafNeighbor>,
    worst: Seq<Real>,
) -> bool {
    &&& worst.len() == n
    &&& forall|t: int|
        0 <= t < n ==> #[trigger] worst[t] == output[t * per_row + per_row - 1].distance
}

/// Selects the nearest other positions for every row of a leaf, `actual_k` for each, in storage
/// that has one place per row.
pub fn select_neighbors<A: Arithmetic>(
    ops: &A,
    input: LeafTopK<'_>,
    actual_k: usize,
    output: &mut [LeafNeighbor],
    workspace: &mut LeafTopKWorkspace,
) -> (r: Result<usize, LeafKernelError>)
    requires
        ops.ready(),
        input.points <= u32::MAX,
        input.dots@.len() == input.points * input.points,
        1 <= actual_k < input.points,
        old(output)@.len() == input.points * actual_k,
        old(workspace).norms@.len() == input.points,
        old(workspace).worst@.len() == input.points,
    ensures
        final(output)@.len() == old(output)@.len(),
        holds_rows(*ops, input, actual_k as int, final(output)@),
        selection_verdict(*ops, input, actual_k as int, r),
        holds_norms(*ops, input, final(workspace).norms@),
        holds_worst(input.points as int, actual_k as int, final(output)@, final(workspace).worst@),
{
    assert(input.dots.len() == input.dots@.len());
    assert(output.len() == output@.len());
    let n: usize = input.points;
    let mut row: usize = 0;
    while row < n
        invariant
            row <= n,
            n == input.points,
            ops.ready(),
            input.dots@.len() == n * n,
            input.dots@.len() <= usize::MAX,
            workspace.norms@.len() == n,
            workspace.worst@.len() == n,
            forall|t: int|
                0 <= t < row ==> #[trigger] workspace.norms@[t] == norm_of(
                    *ops,
                    input.metric,
                    input.dots@[t * n + t],
                ),
            forall|t: int| 0 <= t < row ==> #[trigger] workspace.worst@[t] == Real::spec_max(),
            output@ == old(output)@,
        decreases n - row,
    {
        proof {
            row_bounds(row as int, n as int, n as int);
        }
        let squared = input.dots[row * n + row];
        workspace.norms.set(row, norm(ops, input.metric, squared));
        workspace.worst.set(row, Real::max_finite());
        row += 1;
    }
    let len: usize = output.len();
    let mut i: usize = 0;
    while i < len
        invariant
            i <= len,
            output@.len() == len,
            forall|j: int| 0 <= j < i ==> #[trigger] output@[j] == vacant(),
        decreases len - i,
    {
        output[i] = LeafNeighbor::default();
        i += 1;
    }
    proof {
        assert forall|t: int| 0 <= t < n implies #[trigger] output@.subrange(
            t * actual_k,
            t * actual_k + actual_k,
        ) == leaf_row(
            triangle_distances(*ops, input.metric, input.dots@, n as int, t),
            t,
            offered(t, 0, 0),
            actual_k as int,
        ) && workspace.worst@[t] == output@[t * actual_k + actual_k - 1].distance by {
            row_bounds(t, n as int, actual_k as int);
            let dist = triangle_distances(*ops, input.metric, input.dots@, n as int, t);
            assert(rankable_below(dist, t, 0).len() == 0);
            nearest_below_valid(dist, t, 0);
            assert(offered(t, 0, 0) == 0);
            assert(output@.subrange(t * actual_k, t * actual_k + actual_k) =~= leaf_row(
                dist,
                t,
                0,
                actual_k as int,
            ));
        }
    }
    process_pairs(ops, input, actual_k, output, &workspace.norms, &mut workspace.worst);
    proof {
        assert(holds_worst(n as int, actual_k as int, output@, workspace.worst@)) by {
            assert forall|t: int| 0 <= t < n implies #[trigger] workspace.worst@[t]
                == output@[t * actual_k + actual_k - 1].distance by {
                assert(output@.subrange(t * actual_k, t * actual_k + actual_k).len() == actual_k);
            }
        }
        assert(holds_rows(*ops, input, actual_k as int, output@)) by {
            assert forall|t: int| 0 <= t < n implies #[trigger] output@.subrange(
                t * actual_k,
                t * actual_k + actual_k,
            ) == result_row(*ops, input, t, actual_k as int) by {
                assert(offered(t, n as int, 0) == n);
            }
        }
    }
    let mut row: usize = 0;
    while row < n
        invariant
            row <= n,
            n == input.points,
            n <= u32::MAX,
            1 <= actual_k,
            output@.len() == n * actual_k,
            output@.len() <= usize::MAX,
            output@.len() == old(output)@.len(),
            holds_rows(*ops, input, actual_k as int, output@),
            holds_norms(*ops, input, workspace.norms@),
            holds_worst(n as int, actual_k as int, output@, workspace.worst@),
            forall|t: int|
                0 <= t < row ==> #[trigger] rankable_count(*ops, input, t) >= actual_k,
        decreases n - row,
    {
        proof {
            row_bounds(row as int, n as int, actual_k as int);
            let dist = triangle_distances(
                *ops,
                input.metric,
                input.dots@,
                n as int,
                row as int,
            );
            nearest_below_valid(dist, row as int, n as int);
            let got = output@.subrange(row * actual_k, row * actual_k + actual_k);
            assert(got == result_row(*ops, input, row as int, actual_k as int));
            assert(got[actual_k - 1] == output@[row * actual_k + actual_k - 1]);
            let near = nearest_below(dist, row as int, n as int);
            if actual_k <= near.len() {
                assert(0 <= near[actual_k - 1] < n);
            }
        }
        if output[row * actual_k + (actual_k - 1)].position == u32::MAX {
            return Err(
                LeafKernelError::InsufficientRankableNeighbors { row, neighbors: actual_k },
            );
        }
        row += 1;
    }
    Ok(actual_k)
}

/// Selects the nearest other positions for every row of a leaf.
///
/// Returns how many neighbours each row got: `k`, or one less than the number of points if that
/// is smaller. `output` then holds that many entries per row, in ascending distance, equal
/// distances by position. Storage is brought to one place per row first; where it is there
/// already, that cannot fail.
pub fn nearest_leaf_neighbors<A: Arithmetic>(
    ops: &A,
    input: LeafTopK<'_>,
    k: usize,
    output: &mut [LeafNeighbor],
    workspace: &mut LeafTopKWorkspace,
) -> (r: Result<usize, LeafKernelError>)
    requires
        ops.ready(),
    ensures
        final(output)@.len() == old(output)@.len(),
        ({
            let verdict = shape_verdict(
                input.points as int,
                input.dots@.len() as int,
                k as int,
                old(output)@.len() as int,
            );
            let n = input.points as int;
            let per_row = neighbors_per_row(n, k as int);
            match verdict {
                Err(e) => {
                    &&& r == Err::<usize, LeafKernelError>(e)
                    &&& final(output)@ == old(output)@
                    &&& *final(workspace) == *old(workspace)
                },
                Ok(_) if per_row == 0 => {
                    &&& r == Ok::<usize, LeafKernelError>(0)
                    &&& final(output)@ == old(output)@
                    &&& *final(workspace) == *old(workspace)
                },
                Ok(_) => match r {
                    Err(LeafKernelError::Allocation { buffer, additional }) => {
                        &&& final(output)@ == old(output)@
                        &&& final(workspace).worst@ == old(workspace).worst@
                        &&& {
                            ||| buffer == norms_name() && old(workspace).norms@.len() + additional
                                == n && additional > 0 && final(workspace).norms@ == old(
                                workspace,
                            ).norms@
                            ||| buffer == worst_name() && old(workspace).worst@.len() + additional
                                == n && additional > 0 && brought_to(
                                old(workspace).norms@,
                                final(workspace).norms@,
                                n,
                                Real::spec_zero(),
                            )
                        }
                    },
                    _ => {
                        &&& holds_rows(*ops, input, per_row, final(output)@)
                        &&& selection_verdict(*ops, input, per_row, r)
                        &&& holds_norms(*ops, input, final(workspace).norms@)
                        &&& holds_worst(n, per_row, final(output)@, final(workspace).worst@)
                    },
                },
            }
        }),
{
    let actual_k: usize = match validate(input, k, output.len()) {
        Ok(per_row) => per_row,
        Err(e) => {
            return Err(e);
        },
    };
    if actual_k == 0 {
        return Ok(0);
    }
    let n: usize = input.points;
    match resize("norms", &mut workspace.norms, n, Real::zero()) {
        Ok(_) => {},
        Err(e) => {
            return Err(e);
        },
    }
    match resize("worst distances", &mut workspace.worst, n, Real::max_finite()) {
        Ok(_) => {},
        Err(e) => {
            return Err(e);
        },
    }
    select_neighbors(ops, input, actual_k, output, workspace)
}

} // verus!
