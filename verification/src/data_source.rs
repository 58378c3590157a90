//! Vectors by point id, in memory or in a file.
//!
//! A file starts with the number of points and the number of components, four bytes each, the
//! lowest first; the components of all points follow.

use crate::graph::read4;
use crate::measure::row_bounds;
use vstd::prelude::*;

verus! {

/// Bytes of the header of a file.
pub const HEADER_BYTES: usize = 8;

/// Vectors by point id.
pub trait VectorDataSource {
    /// The type of a component.
    type Elem;

    /// The source is in order.
    spec fn valid(&self) -> bool;

    /// Number of points.
    spec fn count(&self) -> nat;

    /// Number of components.
    spec fn width(&self) -> nat;

    /// The vector of a point.
    spec fn vector(&self, idx: int) -> Seq<Self::Elem>;

    /// The vector of a point.
    fn get(&self, idx: usize) -> (r: &[Self::Elem])
        requires
            self.valid(),
            idx < self.count(),
        ensures
            r@ == self.vector(idx as int),
            r@.len() == self.width(),
    ;

    /// Number of points.
    fn npoints(&self) -> (r: usize)
        ensures
            r == self.count(),
    ;

    /// Number of components.
    fn ndims(&self) -> (r: usize)
        ensures
            r == self.width(),
    ;
}

/// Vectors that stand one after another in memory.
#[derive(Debug)]
pub struct SliceDataSource<'a, T> {
    data: &'a [T],
    npoints: usize,
    ndims: usize,
}

impl<'a, T> SliceDataSource<'a, T> {
    /// The components of all vectors, one after another.
    pub closed spec fn elements(&self) -> Seq<T> {
        self.data@
    }

    /// A source over `npoints` vectors of `ndims` components.
    pub fn new(data: &'a [T], npoints: usize, ndims: usize) -> (r: Self)
        requires
            data@.len() == npoints * ndims,
        ensures
            r.valid(),
            r.count() == npoints,
            r.width() == ndims,
            r.elements() == data@,
    {
        SliceDataSource { data, npoints, ndims }
    }
}

impl<'a, T> VectorDataSource for SliceDataSource<'a, T> {
    type Elem = T;

    closed spec fn valid(&self) -> bool {
        self.data@.len() == self.npoints * self.ndims
    }

    closed spec fn count(&self) -> nat {
        self.npoints as nat
    }

    closed spec fn width(&self) -> nat {
        self.ndims as nat
    }

    open spec fn vector(&self, idx: int) -> Seq<T> {
        self.elements().subrange(idx * self.width(), idx * self.width() + self.width())
    }

    fn get(&self, idx: usize) -> (r: &[T]) {
        proof {
            row_bounds(idx as int, self.npoints as int, self.ndims as int);
            assert(self.data.len() == self.data@.len());
        }
        let start: usize = idx * self.ndims;
        vstd::slice::slice_subrange(self.data, start, start + self.ndims)
    }

    fn npoints(&self) -> (r: usize) {
        self.npoints
    }

    fn ndims(&self) -> (r: usize) {
        self.ndims
    }
}

/// The header of a file.
#[derive(Clone, Copy, Debug, PartialEq, Eq, Structural)]
pub struct BinHeader {
    pub npoints: u32,
    pub ndims: u32,
}

pub(crate) fn read_u32(bytes: &[u8], at: usize) -> (r: u32)
    requires
        at + 4 <= bytes@.len(),
    ensures
        r == read4(bytes@, at as int),
{
    assert(bytes.len() == bytes@.len());
    bytes[at] as u32 + 256 * bytes[at + 1] as u32 + 65536 * bytes[at + 2] as u32 + 16777216
        * bytes[at + 3] as u32
}

/// Reads the header of a file; nothing where the file is too short for one.
pub fn parse_header(bytes: &[u8]) -> (r: Option<BinHeader>)
    ensures
        r is Some <==> bytes@.len() >= 8,
        r matches Some(h) ==> h.npoints == read4(bytes@, 0) && h.ndims == read4(bytes@, 4),
{
    if bytes.len() < HEADER_BYTES {
        None
    } else {
        Some(BinHeader { npoints: read_u32(bytes, 0), ndims: read_u32(bytes, 4) })
    }
}

/// A run of points in a file.
#[derive(Clone, Copy, Debug, PartialEq, Eq, Structural)]
pub struct BinWindow {
    /// Where the components of the first point start.
    pub data_offset: usize,
    /// Number of points.
    pub npoints: usize,
    /// Number of components.
    pub ndims: usize,
    /// Bytes per component.
    pub elem_size: usize,
}

/// How many points a window has that starts at `point_offset`: as many as asked for, but no more
/// than follow.
pub open spec fn window_len(total: int, point_offset: int, count: Option<usize>) -> int {
    let left = if point_offset < total { total - point_offset } else { 0 };
    match count {
        Some(c) if c < left => c as int,
        _ => left,
    }
}

impl BinWindow {
    /// The window that starts at a point.
    pub fn new(header: BinHeader, elem_size: usize, point_offset: usize, count: Option<usize>) -> (r:
        Self)
        requires
            8 + point_offset * header.ndims * elem_size <= usize::MAX,
            point_offset * header.ndims <= usize::MAX,
        ensures
            r.npoints == window_len(header.npoints as int, point_offset as int, count),
            r.ndims == header.ndims,
            r.elem_size == elem_size,
            r.data_offset == 8 + point_offset * header.ndims * elem_size,
    {
        let left: usize = (header.npoints as usize).saturating_sub(point_offset);
        let npoints: usize = match count {
            Some(c) => if c < left {
                c
            } else {
                left
            },
            None => left,
        };
        let ndims: usize = header.ndims as usize;
        BinWindow {
            data_offset: HEADER_BYTES + point_offset * ndims * elem_size,
            npoints,
            ndims,
            elem_size,
        }
    }

    /// Bytes per vector.
    pub open spec fn record(&self) -> int {
        self.ndims * self.elem_size
    }

    /// Where the components of a point stand: from the first byte up to, not including, the
    /// second.
    pub fn byte_range(&self, idx: usize) -> (r: (usize, usize))
        requires
            idx < self.npoints,
            self.data_offset + self.npoints * self.record() <= usize::MAX,
        ensures
            r.0 == self.data_offset + idx * self.record(),
            r.1 == r.0 + self.record(),
            r.1 <= self.data_offset + self.npoints * self.record(),
    {
        proof {
            assert(0 <= self.record()) by (nonlinear_arith)
                requires
                    self.record() == self.ndims * self.elem_size,
            ;
            row_bounds(idx as int, self.npoints as int, self.record());
            assert(self.record() <= self.npoints * self.record()) by (nonlinear_arith)
                requires
                    1 <= self.npoints,
                    0 <= self.record(),
            ;
        }
        let record: usize = self.ndims * self.elem_size;
        let start: usize = self.data_offset + idx * record;
        (start, start + record)
    }
}

/// A point of a window stands where the point at its place in the whole file does.
pub proof fn window_is_shifted(h: BinHeader, elem_size: int, point_offset: int, idx: int)
    ensures
        ({
            let record = h.ndims * elem_size;
            (8 + point_offset * h.ndims * elem_size) + idx * record == 8 + (point_offset + idx)
                * record
        }),
{
    let record = h.ndims * elem_size;
    assert(point_offset * h.ndims * elem_size == point_offset * record) by (nonlinear_arith)
        requires
            record == h.ndims * elem_size,
    ;
    assert((point_offset + idx) * record == point_offset * record + idx * record)
        by (nonlinear_arith);
}

} // verus!
