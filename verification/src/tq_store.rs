//! A store of encoded vectors, and distances between what it holds.

use crate::arith::Arithmetic;
use crate::centroids::LloydMaxCentroids;
use crate::data_source::read_u32;
use crate::gemm::{dot, dot_of};
use crate::graph::{le4, le4_reads_back, push4, read4};
use crate::leaf_build::{floor_at_zero, floored};
use crate::measure::{row_bounds, rows_apart};
use crate::metric::Metric;
use crate::number::{Real, TWO_BITS};
use crate::quantizer::{
    inverse_root, inverse_root_of_dim, rotated, squares_upto, TurboQuantQuantizer,
};
use crate::tq_codes::{
    bytes_per_vector, code_at, code_bytes, codes_per_byte, encoded_bytes, encoded_reads_back,
    extract_code, levels, packable, packed_codes_fit, stored_meta, tqref_from_slice, write_encoded,
    TQRef, TurboQuantMeta,
};
use vstd::prelude::*;

verus! {

/// How many vectors share a write lock.
pub const WRITE_LOCK_GRANULARITY: usize = 16;

/// How far ahead vectors are fetched, unless something else is asked for.
pub const PREFETCH_DEFAULT: usize = 8;

/// Summands by component.
pub type Terms = spec_fn(int) -> Real;

/// The first `n` summands, in order.
pub open spec fn in_order<A: Arithmetic>(ops: A, term: Terms, n: int) -> Real
    decreases n,
{
    if n <= 0 {
        Real::spec_zero()
    } else {
        ops.sum(in_order(ops, term, n - 1), term(n - 1))
    }
}

/// Every second summand from `start` on, `n` of them.
pub open spec fn every_second<A: Arithmetic>(ops: A, term: Terms, start: int, n: int) -> Real
    decreases n,
{
    if n <= 0 {
        Real::spec_zero()
    } else {
        ops.sum(every_second(ops, term, start, n - 1), term(start + 2 * (n - 1)))
    }
}

/// Two summands out of each of the first `n` groups of four: the one at `start` and the one two
/// places further.
pub open spec fn by_fours<A: Arithmetic>(ops: A, term: Terms, start: int, n: int) -> Real
    decreases n,
{
    if n <= 0 {
        Real::spec_zero()
    } else {
        let at = 4 * (n - 1) + start;
        ops.sum(by_fours(ops, term, start, n - 1), ops.sum(term(at), term(at + 2)))
    }
}

/// A sum, continued with the summands from `from` up to `to`.
pub open spec fn continued<A: Arithmetic>(ops: A, term: Terms, acc: Real, from: int, to: int) -> Real
    decreases to - from,
{
    if from >= to {
        acc
    } else {
        continued(ops, term, ops.sum(acc, term(from)), from + 1, to)
    }
}

/// Even and odd summands apart, then together.
pub open spec fn two_lanes<A: Arithmetic>(ops: A, term: Terms, dim: int) -> Real {
    ops.sum(
        every_second(ops, term, 0, (dim + 1) / 2),
        every_second(ops, term, 1, dim / 2),
    )
}

/// Even and odd summands apart, in groups of four, what is left over joining the even ones.
pub open spec fn four_lanes<A: Arithmetic>(ops: A, term: Terms, dim: int) -> Real {
    let groups = dim / 4;
    ops.sum(
        continued(ops, term, by_fours(ops, term, 0, groups), 4 * groups, dim),
        by_fours(ops, term, 1, groups),
    )
}

/// The products of a query with the values of packed codes.
pub open spec fn query_terms<A: Arithmetic>(
    ops: A,
    query: Seq<Real>,
    packed: Seq<u8>,
    values: Seq<Real>,
    nbits: usize,
) -> Terms {
    |j: int| ops.product(query[j], values[code_at(packed, j, nbits) as int])
}

/// The products of the values of two lists of packed codes.
pub open spec fn code_terms<A: Arithmetic>(
    ops: A,
    a: Seq<u8>,
    b: Seq<u8>,
    values: Seq<Real>,
    nbits: usize,
) -> Terms {
    |j: int|
        ops.product(
            values[code_at(a, j, nbits) as int],
            values[code_at(b, j, nbits) as int],
        )
}

/// The first `dim` codes are there, and have values.
pub open spec fn readable(packed: Seq<u8>, values: Seq<Real>, dim: int, nbits: usize) -> bool {
    &&& dim <= if packable(nbits) {
        packed.len() * codes_per_byte(nbits)
    } else {
        packed.len()
    }
    &&& forall|j: int| 0 <= j < dim ==> (#[trigger] code_at(packed, j, nbits)) < values.len()
}

/// Something that gives summands by component.
trait TermSource<A: Arithmetic> {
    /// The summands below `dim` can be asked for.
    spec fn covers(&self, dim: int) -> bool;

    /// The summands.
    spec fn terms(&self) -> Terms;

    /// The summand at component `j`.
    fn term(&self, j: usize, Ghost(dim): Ghost<int>) -> (r: Real)
        requires
            self.covers(dim),
            j < dim,
        ensures
            r == (self.terms())(j as int),
    ;
}

struct QueryTerms<'a, A> {
    ops: &'a A,
    query: &'a [Real],
    packed: &'a [u8],
    values: &'a [Real],
    nbits: usize,
}

impl<'a, A: Arithmetic> TermSource<A> for QueryTerms<'a, A> {
    closed spec fn covers(&self, dim: int) -> bool {
        self.ops.ready() && dim <= self.query@.len() && readable(
            self.packed@,
            self.values@,
            dim,
            self.nbits,
        )
    }

    closed spec fn terms(&self) -> Terms {
        query_terms(*self.ops, self.query@, self.packed@, self.values@, self.nbits)
    }

    fn term(&self, j: usize, Ghost(dim): Ghost<int>) -> (r: Real) {
        let code: u8 = extract_code(self.packed, j, self.nbits);
        assert(code_at(self.packed@, j as int, self.nbits) < self.values@.len());
        self.ops.times(self.query[j], self.values[code as usize])
    }
}

struct CodeTerms<'a, A> {
    ops: &'a A,
    a: &'a [u8],
    b: &'a [u8],
    values: &'a [Real],
    nbits: usize,
}

impl<'a, A: Arithmetic> TermSource<A> for CodeTerms<'a, A> {
    closed spec fn covers(&self, dim: int) -> bool {
        self.ops.ready() && readable(self.a@, self.values@, dim, self.nbits) && readable(
            self.b@,
            self.values@,
            dim,
            self.nbits,
        )
    }

    closed spec fn terms(&self) -> Terms {
        code_terms(*self.ops, self.a@, self.b@, self.values@, self.nbits)
    }

    fn term(&self, j: usize, Ghost(dim): Ghost<int>) -> (r: Real) {
        let ca: u8 = extract_code(self.a, j, self.nbits);
        let cb: u8 = extract_code(self.b, j, self.nbits);
        assert(code_at(self.a@, j as int, self.nbits) < self.values@.len());
        assert(code_at(self.b@, j as int, self.nbits) < self.values@.len());
        self.ops.times(self.values[ca as usize], self.values[cb as usize])
    }
}

/// Sums in order.
fn sum_in_order<A: Arithmetic, T: TermSource<A>>(ops: &A, source: &T, dim: usize) -> (r: Real)
    requires
        ops.ready(),
        source.covers(dim as int),
    ensures
        r == in_order(*ops, source.terms(), dim as int),
{
    let mut acc = Real::zero();
    let mut j: usize = 0;
    while j < dim
        invariant
            j <= dim,
            ops.ready(),
            source.covers(dim as int),
            acc == in_order(*ops, source.terms(), j as int),
        decreases dim - j,
    {
        let t = source.term(j, Ghost(dim as int));
        acc = ops.plus(acc, t);
        j += 1;
    }
    acc
}

/// Sums even and odd components apart, two at a time.
fn sum_two_lanes<A: Arithmetic, T: TermSource<A>>(ops: &A, source: &T, dim: usize) -> (r: Real)
    requires
        ops.ready(),
        source.covers(dim as int),
    ensures
        r == two_lanes(*ops, source.terms(), dim as int),
{
    let mut even = Real::zero();
    let mut odd = Real::zero();
    let pairs: usize = dim / 2;
    let mut i: usize = 0;
    while i < pairs
        invariant
            i <= pairs,
            pairs == dim / 2,
            ops.ready(),
            source.covers(dim as int),
            even == every_second(*ops, source.terms(), 0, i as int),
            odd == every_second(*ops, source.terms(), 1, i as int),
        decreases pairs - i,
    {
        let t0 = source.term(2 * i, Ghost(dim as int));
        let t1 = source.term(2 * i + 1, Ghost(dim as int));
        even = ops.plus(even, t0);
        odd = ops.plus(odd, t1);
        i += 1;
    }
    if dim % 2 == 1 {
        let t = source.term(dim - 1, Ghost(dim as int));
        even = ops.plus(even, t);
    }
    ops.plus(even, odd)
}

/// Sums even and odd components apart, four at a time.
fn sum_four_lanes<A: Arithmetic, T: TermSource<A>>(ops: &A, source: &T, dim: usize) -> (r: Real)
    requires
        ops.ready(),
        source.covers(dim as int),
    ensures
        r == four_lanes(*ops, source.terms(), dim as int),
{
    let mut even = Real::zero();
    let mut odd = Real::zero();
    let groups: usize = dim / 4;
    let mut i: usize = 0;
    while i < groups
        invariant
            i <= groups,
            groups == dim / 4,
            ops.ready(),
            source.covers(dim as int),
            even == by_fours(*ops, source.terms(), 0, i as int),
            odd == by_fours(*ops, source.terms(), 1, i as int),
        decreases groups - i,
    {
        let at: usize = 4 * i;
        let t0 = source.term(at, Ghost(dim as int));
        let t1 = source.term(at + 1, Ghost(dim as int));
        let t2 = source.term(at + 2, Ghost(dim as int));
        let t3 = source.term(at + 3, Ghost(dim as int));
        let e = ops.plus(t0, t2);
        let o = ops.plus(t1, t3);
        even = ops.plus(even, e);
        odd = ops.plus(odd, o);
        i += 1;
    }
    let ghost base = even;
    let mut j: usize = 4 * groups;
    while j < dim
        invariant
            4 * groups <= j <= dim,
            ops.ready(),
            source.covers(dim as int),
            continued(*ops, source.terms(), base, 4 * groups, dim as int) == continued(
                *ops,
                source.terms(),
                even,
                j as int,
                dim as int,
            ),
        decreases dim - j,
    {
        let t = source.term(j, Ghost(dim as int));
        even = ops.plus(even, t);
        j += 1;
    }
    ops.plus(even, odd)
}

/// The product of a rotated query with the values of packed codes. Codes of four bits are summed
/// in two lanes, codes of two bits in lanes of four, others in order.
pub open spec fn query_product<A: Arithmetic>(
    ops: A,
    query: Seq<Real>,
    packed: Seq<u8>,
    values: Seq<Real>,
    dim: int,
    nbits: usize,
) -> Real {
    let terms = query_terms(ops, query, packed, values, nbits);
    if nbits == 4 {
        two_lanes(ops, terms, dim)
    } else if nbits == 2 {
        four_lanes(ops, terms, dim)
    } else {
        in_order(ops, terms, dim)
    }
}

/// The product of the values of two lists of packed codes, over all components. Codes of four
/// bits are summed in two lanes, others in order.
pub open spec fn code_product<A: Arithmetic>(
    ops: A,
    a: Seq<u8>,
    b: Seq<u8>,
    values: Seq<Real>,
    dim: int,
    nbits: usize,
) -> Real {
    let terms = code_terms(ops, a, b, values, nbits);
    if nbits == 4 {
        two_lanes(ops, terms, dim)
    } else {
        in_order(ops, terms, dim)
    }
}

/// What is wrong with a request to a store.
#[derive(Debug)]
pub enum TQError {
    /// A vector could not be converted to numbers.
    FullPrecisionConversionErr(String),
    /// The metric has no distances between codes.
    UnsupportedDistanceMetric(Metric),
}

/// Distances between two encoded vectors.
#[derive(Debug)]
pub struct TQDistanceComputer<'a> {
    pub centroids: &'a LloydMaxCentroids,
    pub inv_sqrt_dim: Real,
    pub dim: usize,
    pub nbits: usize,
}

impl<'a> TQDistanceComputer<'a> {
    /// The squared distance of two encoded vectors: their squared lengths, minus twice their
    /// scaled product; never below zero.
    pub open spec fn distance<A: Arithmetic>(
        &self,
        ops: A,
        left: Seq<u8>,
        left_meta: TurboQuantMeta,
        right: Seq<u8>,
        right_meta: TurboQuantMeta,
    ) -> Real {
        let scale = ops.product(
            ops.product(ops.product(self.inv_sqrt_dim, self.inv_sqrt_dim), left_meta.norm),
            right_meta.norm,
        );
        let ip = code_product(
            ops,
            left,
            right,
            self.centroids.values(),
            self.dim as int,
            self.nbits,
        );
        floored(
            ops.difference(
                ops.sum(left_meta.quant_norm_sq, right_meta.quant_norm_sq),
                ops.product(ops.product(Real { bits: TWO_BITS }, ip), scale),
            ),
        )
    }

    /// Computes the squared distance of two encoded vectors.
    pub fn evaluate_similarity<A: Arithmetic>(
        &self,
        ops: &A,
        left: TQRef<'_>,
        right: TQRef<'_>,
    ) -> (r: Real)
        requires
            ops.ready(),
            readable(left.codes@, self.centroids.values(), self.dim as int, self.nbits),
            readable(right.codes@, self.centroids.values(), self.dim as int, self.nbits),
        ensures
            r == self.distance(*ops, left.codes@, left.meta, right.codes@, right.meta),
            !r.nan(),
            !r.lt(Real::spec_zero()),
    {
        let square = ops.times(self.inv_sqrt_dim, self.inv_sqrt_dim);
        let half = ops.times(square, left.meta.norm);
        let scale = ops.times(half, right.meta.norm);
        let source = CodeTerms {
            ops,
            a: left.codes,
            b: right.codes,
            values: self.centroids.centroids(),
            nbits: self.nbits,
        };
        let ip = if self.nbits == 4 {
            sum_two_lanes(ops, &source, self.dim)
        } else {
            sum_in_order(ops, &source, self.dim)
        };
        let lengths = ops.plus(left.meta.quant_norm_sq, right.meta.quant_norm_sq);
        let twice = ops.times(Real::from_bits(TWO_BITS), ip);
        let scaled = ops.times(twice, scale);
        floor_at_zero(ops.minus(lengths, scaled))
    }
}

/// Distances of one rotated query to encoded vectors.
#[derive(Debug)]
pub struct TQQueryComputer<'a> {
    pub rotated_query: Vec<Real>,
    pub query_norm_sq: Real,
    pub centroids: &'a LloydMaxCentroids,
    pub inv_sqrt_dim: Real,
    pub nbits: usize,
    pub dim: usize,
}

impl<'a> TQQueryComputer<'a> {
    /// The squared distance of the query to an encoded vector: the squared length of the query,
    /// minus twice the scaled product, plus the squared length of the vector; never below zero.
    pub open spec fn distance<A: Arithmetic>(
        &self,
        ops: A,
        codes: Seq<u8>,
        meta: TurboQuantMeta,
    ) -> Real {
        let ip = query_product(
            ops,
            self.rotated_query@,
            codes,
            self.centroids.values(),
            self.dim as int,
            self.nbits,
        );
        floored(
            ops.sum(
                ops.difference(
                    self.query_norm_sq,
                    ops.product(
                        ops.product(Real { bits: TWO_BITS }, ip),
                        ops.product(self.inv_sqrt_dim, meta.norm),
                    ),
                ),
                meta.quant_norm_sq,
            ),
        )
    }

    /// Computes the squared distance of the query to an encoded vector.
    pub fn evaluate_similarity<A: Arithmetic>(&self, ops: &A, changing: TQRef<'_>) -> (r: Real)
        requires
            ops.ready(),
            self.dim <= self.rotated_query@.len(),
            readable(changing.codes@, self.centroids.values(), self.dim as int, self.nbits),
        ensures
            r == self.distance(*ops, changing.codes@, changing.meta),
            !r.nan(),
            !r.lt(Real::spec_zero()),
    {
        let scale = ops.times(self.inv_sqrt_dim, changing.meta.norm);
        let source = QueryTerms {
            ops,
            query: self.rotated_query.as_slice(),
            packed: changing.codes,
            values: self.centroids.centroids(),
            nbits: self.nbits,
        };
        let ip = if self.nbits == 4 {
            sum_two_lanes(ops, &source, self.dim)
        } else if self.nbits == 2 {
            sum_four_lanes(ops, &source, self.dim)
        } else {
            sum_in_order(ops, &source, self.dim)
        };
        let twice = ops.times(Real::from_bits(TWO_BITS), ip);
        let scaled = ops.times(twice, scale);
        let rest = ops.minus(self.query_norm_sq, scaled);
        floor_at_zero(ops.plus(rest, changing.meta.quant_norm_sq))
    }
}

/// Where multiplication commutes, the product of two encoded vectors is the same in both orders.
pub proof fn code_product_symmetric<A: Arithmetic>(
    ops: A,
    a: Seq<u8>,
    b: Seq<u8>,
    values: Seq<Real>,
    dim: int,
    nbits: usize,
)
    requires
        forall|x: Real, y: Real| #[trigger] ops.product(x, y) == ops.product(y, x),
    ensures
        code_product(ops, a, b, values, dim, nbits) == code_product(ops, b, a, values, dim, nbits),
{
    let ab = code_terms(ops, a, b, values, nbits);
    let ba = code_terms(ops, b, a, values, nbits);
    assert forall|j: int| #[trigger] ab(j) == ba(j) by {}
    assert(ab =~= ba);
}

/// Where addition and multiplication commute, two encoded vectors are equally far from each other
/// in both directions, if scaling by their two lengths gives the same in both orders.
pub proof fn distance_symmetric<A: Arithmetic>(
    ops: A,
    c: TQDistanceComputer<'_>,
    left: Seq<u8>,
    left_meta: TurboQuantMeta,
    right: Seq<u8>,
    right_meta: TurboQuantMeta,
)
    requires
        forall|x: Real, y: Real| #[trigger] ops.product(x, y) == ops.product(y, x),
        forall|x: Real, y: Real| #[trigger] ops.sum(x, y) == ops.sum(y, x),
        ({
            let unit = ops.product(c.inv_sqrt_dim, c.inv_sqrt_dim);
            ops.product(ops.product(unit, left_meta.norm), right_meta.norm) == ops.product(
                ops.product(unit, right_meta.norm),
                left_meta.norm,
            )
        }),
    ensures
        c.distance(ops, left, left_meta, right, right_meta) == c.distance(
            ops,
            right,
            right_meta,
            left,
            left_meta,
        ),
{
    code_product_symmetric(ops, left, right, c.centroids.values(), c.dim as int, c.nbits);
    assert(ops.sum(left_meta.quant_norm_sq, right_meta.quant_norm_sq) == ops.sum(
        right_meta.quant_norm_sq,
        left_meta.quant_norm_sq,
    ));
}

/// What a store keeps of a vector reads back: every code and both numbers. Its codes have values,
/// so distances to it can be computed.
pub proof fn stored_vector_reads_back<A: Arithmetic>(
    ops: A,
    q: TurboQuantQuantizer,
    v: Seq<Real>,
    y: Seq<Real>,
)
    requires
        q.wf(),
        q.table().width() <= usize::MAX,
        q.table().values().len() <= levels(q.table().width() as usize),
    ensures
        ({
            let nbits = q.table().width() as usize;
            let dim = q.dims() as int;
            let bytes = record_of_rotated(ops, q, v, y);
            let codes = q.codes_of_rotated(ops, ops.root(dot_of(ops, v, v)), y);
            &&& stored_meta(bytes, dim, nbits) == meta_of_rotated(ops, q, v, y)
            &&& forall|i: int|
                0 <= i < dim ==> #[trigger] code_at(bytes.take(code_bytes(dim, nbits)), i, nbits)
                    == codes[i]
            &&& readable(bytes.take(code_bytes(dim, nbits)), q.table().values(), dim, nbits)
        }),
{
    let nbits = q.table().width() as usize;
    let dim = q.dims() as int;
    let norm = ops.root(dot_of(ops, v, v));
    let codes = q.codes_of_rotated(ops, norm, y);
    let meta = meta_of_rotated(ops, q, v, y);
    let bytes = record_of_rotated(ops, q, v, y);
    let front = bytes.take(code_bytes(dim, nbits));
    encoded_reads_back(codes, nbits, meta, Seq::empty());
    assert(bytes + Seq::<u8>::empty() =~= bytes);
    q.codes_have_values(ops, norm, y);
    packed_codes_fit(dim, nbits);
    assert forall|i: int| 0 <= i < dim implies #[trigger] code_at(front, i, nbits)
        == codes[i] by {
        assert((codes[i] as nat) < levels(nbits));
        vstd::arithmetic::div_mod::lemma_small_mod(codes[i] as nat, levels(nbits));
    }
    assert(front.len() == code_bytes(dim, nbits));
}

/// Makes stores.
#[derive(Debug)]
pub struct WithTurboQuant {
    pub quantizer: TurboQuantQuantizer,
}

impl WithTurboQuant {
    /// Stores that use the given quantizer.
    pub fn new(quantizer: TurboQuantQuantizer) -> (r: Self)
        ensures
            r.quantizer == quantizer,
    {
        WithTurboQuant { quantizer }
    }

    /// The quantizer in use.
    pub fn quantizer(&self) -> (r: &TurboQuantQuantizer)
        ensures
            *r == self.quantizer,
    {
        &self.quantizer
    }

    /// A store for up to `max_points` vectors.
    pub fn create(self, max_points: usize, metric: Metric, prefetch_lookahead: Option<usize>) -> (r:
        TQStore)
        requires
            self.quantizer.wf(),
            store_fits(self.quantizer, max_points),
        ensures
            r.wf(),
            r.count() == max_points,
            r.codec() == self.quantizer,
            r.measure() == metric,
            r.lookahead() == match prefetch_lookahead {
                Some(n) => n,
                None => PREFETCH_DEFAULT,
            },
    {
        TQStore::new(self.quantizer, max_points, metric, prefetch_lookahead)
    }
}

/// There is memory for `n` vectors of a quantizer.
pub open spec fn store_fits(q: TurboQuantQuantizer, n: usize) -> bool {
    let dim = q.dims() as int;
    let nbits = q.table().width() as usize;
    &&& dim * nbits + 7 <= usize::MAX
    &&& dim + 8 <= usize::MAX
    &&& code_bytes(dim, nbits) + 8 <= usize::MAX
    &&& n * (code_bytes(dim, nbits) + 8) <= usize::MAX
}

/// Encoded vectors, one after another, with the quantizer that encodes them.
#[derive(Debug)]
pub struct TQStore {
    data: Vec<u8>,
    num_vectors: usize,
    record: usize,
    quantizer: TurboQuantQuantizer,
    metric: Metric,
    prefetch_lookahead: usize,
}

impl TQStore {
    /// Number of vectors.
    pub closed spec fn count(&self) -> nat {
        self.num_vectors as nat
    }

    /// Bytes per vector.
    pub closed spec fn record_size(&self) -> nat {
        self.record as nat
    }

    /// The bytes of vector `i`.
    pub closed spec fn bytes(&self, i: int) -> Seq<u8> {
        self.data@.subrange(i * self.record, i * self.record + self.record)
    }

    /// The quantizer in use.
    pub closed spec fn codec(&self) -> TurboQuantQuantizer {
        self.quantizer
    }

    /// The metric of the index.
    pub closed spec fn measure(&self) -> Metric {
        self.metric
    }

    /// How far ahead vectors are fetched.
    pub closed spec fn lookahead(&self) -> usize {
        self.prefetch_lookahead
    }

    /// The bytes are those of all vectors.
    pub closed spec fn wf(&self) -> bool {
        &&& self.quantizer.wf()
        &&& self.data@.len() == self.num_vectors * self.record
        &&& self.record == code_bytes(
            self.quantizer.dims() as int,
            self.quantizer.table().width() as usize,
        ) + 8
        &&& self.quantizer.dims() * self.quantizer.table().width() + 7 <= usize::MAX
        &&& self.quantizer.dims() + 8 <= usize::MAX
        &&& self.quantizer.table().width() <= usize::MAX
    }

    /// A store of zeroed records.
    pub fn new(
        quantizer: TurboQuantQuantizer,
        num_vectors: usize,
        metric: Metric,
        prefetch_lookahead: Option<usize>,
    ) -> (r: Self)
        requires
            quantizer.wf(),
            store_fits(quantizer, num_vectors),
        ensures
            r.wf(),
            r.count() == num_vectors,
            r.codec() == quantizer,
            r.measure() == metric,
            r.lookahead() == match prefetch_lookahead {
                Some(n) => n,
                None => PREFETCH_DEFAULT,
            },
            forall|i: int|
                0 <= i < num_vectors ==> #[trigger] r.bytes(i) == Seq::new(
                    r.record_size(),
                    |b: int| 0u8,
                ),
    {
        let dim: usize = quantizer.dim();
        let nbits: usize = quantizer.nbits();
        let record: usize = bytes_per_vector(dim, nbits);
        let data: Vec<u8> = vec![0u8; num_vectors * record];
        let prefetch_lookahead: usize = match prefetch_lookahead {
            Some(n) => n,
            None => PREFETCH_DEFAULT,
        };
        proof {
            assert forall|i: int| 0 <= i < num_vectors implies #[trigger] data@.subrange(
                i * record,
                i * record + record,
            ) == Seq::new(record as nat, |b: int| 0u8) by {
                row_bounds(i, num_vectors as int, record as int);
                assert(data@.subrange(i * record, i * record + record) =~= Seq::new(
                    record as nat,
                    |b: int| 0u8,
                ));
            }
        }
        TQStore { data, num_vectors, record, quantizer, metric, prefetch_lookahead }
    }

    /// Length of a vector.
    pub fn dim(&self) -> (r: usize)
        ensures
            r == self.codec().dims(),
    {
        self.quantizer.dim()
    }

    /// Number of vectors.
    pub fn total(&self) -> (r: usize)
        ensures
            r == self.count(),
    {
        self.num_vectors
    }

    /// How far ahead vectors are fetched.
    pub fn prefetch_lookahead(&self) -> (r: usize)
        ensures
            r == self.lookahead(),
    {
        self.prefetch_lookahead
    }

    /// The bytes of vector `i`.
    pub fn get_data(&self, i: usize) -> (r: &[u8])
        requires
            self.wf(),
            i < self.count(),
        ensures
            r@ == self.bytes(i as int),
            r@.len() == self.record_size(),
    {
        proof {
            row_bounds(i as int, self.num_vectors as int, self.record as int);
            assert(self.data.len() == self.data@.len());
        }
        let start: usize = i * self.record;
        vstd::slice::slice_subrange(self.data.as_slice(), start, start + self.record)
    }

    /// Vector `i`.
    pub fn get_vector(&self, i: usize) -> (r: TQRef<'_>)
        requires
            self.wf(),
            i < self.count(),
        ensures
            r.codes@ == self.bytes(i as int).take(
                code_bytes(self.codec().dims() as int, self.codec().table().width() as usize),
            ),
            r.meta == stored_meta(
                self.bytes(i as int),
                self.codec().dims() as int,
                self.codec().table().width() as usize,
            ),
    {
        let slice = self.get_data(i);
        tqref_from_slice(slice, self.quantizer.dim(), self.quantizer.nbits())
    }

    /// Replaces the bytes of vector `i`.
    pub fn set_raw_vector(&mut self, i: usize, v: &[u8])
        requires
            old(self).wf(),
            i < old(self).count(),
            v@.len() == old(self).record_size(),
        ensures
            final(self).wf(),
            final(self).count() == old(self).count(),
            final(self).record_size() == old(self).record_size(),
            final(self).codec() == old(self).codec(),
            final(self).measure() == old(self).measure(),
            final(self).lookahead() == old(self).lookahead(),
            final(self).bytes(i as int) == v@,
            forall|j: int|
                0 <= j < old(self).count() && j != i ==> (#[trigger] final(self).bytes(j)) == old(
                    self,
                ).bytes(j),
    {
        proof {
            row_bounds(i as int, self.num_vectors as int, self.record as int);
            assert(self.data.len() == self.data@.len());
        }
        let ghost before = *self;
        let start: usize = i * self.record;
        let len: usize = self.record;
        let mut x: usize = 0;
        while x < len
            invariant
                x <= len,
                len == self.record,
                v@.len() == len,
                start == i * len,
                start + len <= self.data@.len() <= usize::MAX,
                self.data@.len() == before.data@.len(),
                self.record == before.record,
                self.num_vectors == before.num_vectors,
                self.quantizer == before.quantizer,
                self.metric == before.metric,
                self.prefetch_lookahead == before.prefetch_lookahead,
                forall|y: int| 0 <= y < x ==> #[trigger] self.data@[start + y] == v@[y],
                forall|y: int|
                    0 <= y < before.data@.len() && !(start <= y < start + len)
                        ==> #[trigger] self.data@[y] == before.data@[y],
            decreases len - x,
        {
            let ghost prior = self.data@;
            self.data.set(start + x, v[x]);
            proof {
                assert forall|y: int| 0 <= y < x implies #[trigger] self.data@[start + y] == v@[y] by {
                    assert(prior[start + y] == v@[y]);
                }
            }
            x += 1;
        }
        proof {
            assert forall|y: int| 0 <= y < len implies self.bytes(i as int)[y] == v@[y] by {
                assert(self.data@[start + y] == v@[y]);
            }
            assert(self.bytes(i as int) =~= v@);
            assert forall|j: int| 0 <= j < before.count() && j != i implies #[trigger] self.bytes(j)
                == before.bytes(j) by {
                row_bounds(j, self.num_vectors as int, len as int);
                if j < i {
                    rows_apart(j, i as int, len as int);
                } else {
                    rows_apart(i as int, j, len as int);
                }
                assert(self.bytes(j) =~= before.bytes(j));
            }
        }
    }

    /// Encodes a vector, rotating it by the matrix, and stores it as vector `i`.
    pub fn set_vector<A: Arithmetic>(&mut self, ops: &A, i: usize, v: &[Real])
        requires
            ops.ready(),
            old(self).wf(),
            old(self).codec().dense(),
            i < old(self).count(),
            v@.len() == old(self).codec().dims(),
        ensures
            final(self).wf(),
            final(self).count() == old(self).count(),
            final(self).record_size() == old(self).record_size(),
            final(self).codec() == old(self).codec(),
            final(self).measure() == old(self).measure(),
            final(self).lookahead() == old(self).lookahead(),
            final(self).bytes(i as int) == record_of(*ops, old(self).codec(), v@),
            forall|j: int|
                0 <= j < old(self).count() && j != i ==> (#[trigger] final(self).bytes(j)) == old(
                    self,
                ).bytes(j),
    {
        let y = self.quantizer.rotate_query(ops, v);
        self.set_rotated_vector(ops, i, v, y.as_slice());
    }

    /// Encodes the vector `v`, which was rotated to `y`, and stores it as vector `i`.
    pub fn set_rotated_vector<A: Arithmetic>(&mut self, ops: &A, i: usize, v: &[Real], y: &[Real])
        requires
            ops.ready(),
            old(self).wf(),
            i < old(self).count(),
            v@.len() == old(self).codec().dims(),
            y@.len() == old(self).codec().dims(),
        ensures
            final(self).wf(),
            final(self).count() == old(self).count(),
            final(self).record_size() == old(self).record_size(),
            final(self).codec() == old(self).codec(),
            final(self).measure() == old(self).measure(),
            final(self).lookahead() == old(self).lookahead(),
            final(self).bytes(i as int) == record_of_rotated(*ops, old(self).codec(), v@, y@),
            forall|j: int|
                0 <= j < old(self).count() && j != i ==> (#[trigger] final(self).bytes(j)) == old(
                    self,
                ).bytes(j),
    {
        let encoded = self.quantizer.encode_rotated(ops, v, y);
        let nbits: usize = self.quantizer.nbits();
        let mut buf: Vec<u8> = vec![0u8; self.record];
        write_encoded(
            buf.as_mut_slice(),
            self.quantizer.dim(),
            nbits,
            encoded.codes.as_slice(),
            encoded.norm,
            encoded.quant_norm_sq,
        );
        proof {
            packed_codes_fit(encoded.codes@.len() as int, nbits);
            assert(buf@ =~= record_of_rotated(*ops, self.codec(), v@, y@));
        }
        self.set_raw_vector(i, buf.as_slice());
    }

    /// The vectors of a list of ids, in the order of the list.
    pub fn get_vectors(&self, ids: &[u32]) -> (r: Vec<TQRef<'_>>)
        requires
            self.wf(),
            forall|x: int| 0 <= x < ids@.len() ==> #[trigger] ids@[x] < self.count(),
        ensures
            r@.len() == ids@.len(),
            forall|x: int|
                0 <= x < ids@.len() ==> {
                    let bytes = self.bytes(ids@[x] as int);
                    let dim = self.codec().dims() as int;
                    let nbits = self.codec().table().width() as usize;
                    &&& (#[trigger] r@[x]).codes@ == bytes.take(code_bytes(dim, nbits))
                    &&& r@[x].meta == stored_meta(bytes, dim, nbits)
                },
    {
        let mut r: Vec<TQRef<'_>> = Vec::with_capacity(ids.len());
        let mut x: usize = 0;
        while x < ids.len()
            invariant
                x <= ids@.len(),
                self.wf(),
                forall|k: int| 0 <= k < ids@.len() ==> #[trigger] ids@[k] < self.count(),
                r@.len() == x,
                forall|k: int|
                    0 <= k < x ==> {
                        let bytes = self.bytes(ids@[k] as int);
                        let dim = self.codec().dims() as int;
                        let nbits = self.codec().table().width() as usize;
                        &&& (#[trigger] r@[k]).codes@ == bytes.take(code_bytes(dim, nbits))
                        &&& r@[k].meta == stored_meta(bytes, dim, nbits)
                    },
            decreases ids@.len() - x,
        {
            assert(ids@[x as int] < self.count());
            r.push(self.get_vector(ids[x] as usize));
            x += 1;
        }
        r
    }

    /// The records of all vectors, one after another.
    pub closed spec fn contents(&self) -> Seq<u8> {
        self.data@
    }

    /// The contents are the records of the vectors.
    pub proof fn contents_are_records(&self)
        requires
            self.wf(),
        ensures
            self.contents().len() == self.count() * self.record_size(),
            forall|i: int|
                0 <= i < self.count() ==> #[trigger] self.bytes(i) == self.contents().subrange(
                    i * self.record_size(),
                    i * self.record_size() + self.record_size(),
                ),
    {
    }

    /// The file of a store: the number of vectors, the size of a record, and the records.
    pub open spec fn file_bytes(&self) -> Seq<u8> {
        le4(self.count() as u32) + le4(self.record_size() as u32) + self.contents()
    }

    /// Writes the store out. The quantizer is not part of it.
    pub fn save(&self) -> (out: Vec<u8>)
        requires
            self.wf(),
            self.count() <= u32::MAX,
            self.record_size() <= u32::MAX,
            8 + self.count() * self.record_size() <= usize::MAX,
        ensures
            out@ == self.file_bytes(),
    {
        let mut out: Vec<u8> = Vec::with_capacity(8 + self.data.len());
        push4(&mut out, self.num_vectors as u32);
        push4(&mut out, self.record as u32);
        let ghost head = out@;
        let mut x: usize = 0;
        while x < self.data.len()
            invariant
                x <= self.data@.len(),
                out@ == head + self.data@.take(x as int),
            decreases self.data@.len() - x,
        {
            out.push(self.data[x]);
            x += 1;
            assert(out@ =~= head + self.data@.take(x as int));
        }
        assert(self.data@.take(x as int) =~= self.data@);
        assert(out@ =~= self.file_bytes());
        out
    }

    /// Reads a store back, for the quantizer that its vectors were encoded with.
    pub fn load(
        file: &[u8],
        quantizer: TurboQuantQuantizer,
        metric: Metric,
        prefetch_lookahead: Option<usize>,
    ) -> (r: Result<Self, TQLoadError>)
        requires
            quantizer.wf(),
            store_fits(quantizer, 0),
            quantizer.table().width() <= usize::MAX,
        ensures
            match load_verdict(file@, quantizer) {
                Err(e) => r == Err::<Self, TQLoadError>(e),
                Ok(_) => r matches Ok(s) && {
                    &&& s.wf()
                    &&& s.count() == read4(file@, 0)
                    &&& s.record_size() == read4(file@, 4)
                    &&& s.codec() == quantizer
                    &&& s.measure() == metric
                    &&& s.lookahead() == match prefetch_lookahead {
                        Some(n) => n,
                        None => PREFETCH_DEFAULT,
                    }
                    &&& s.contents() == file@.subrange(
                        8,
                        8 + read4(file@, 0) * read4(file@, 4),
                    )
                },
            },
    {
        assert(file.len() == file@.len());
        if file.len() < 8 {
            return Err(TQLoadError::Truncated);
        }
        let count: u32 = read_u32(file, 0);
        let stored: u32 = read_u32(file, 4);
        let record: usize = bytes_per_vector(quantizer.dim(), quantizer.nbits());
        if stored as u64 != record as u64 {
            return Err(TQLoadError::RecordSize { expected: record, actual: stored });
        }
        assert(0 <= count * stored <= 0xffff_ffff * 0xffff_ffff) by (nonlinear_arith)
            requires
                0 <= count <= 0xffff_ffff,
                0 <= stored <= 0xffff_ffff,
        ;
        let total: u64 = count as u64 * stored as u64;
        if (file.len() as u64 - 8) < total {
            return Err(TQLoadError::Truncated);
        }
        let total: usize = total as usize;
        let mut data: Vec<u8> = Vec::with_capacity(total);
        let ghost all = file@.subrange(8, 8 + total);
        let mut x: usize = 0;
        while x < total
            invariant
                x <= total,
                8 + total <= file@.len(),
                file.len() == file@.len(),
                all == file@.subrange(8, 8 + total),
                data@ == all.take(x as int),
            decreases total - x,
        {
            data.push(file[8 + x]);
            x += 1;
            assert(data@ =~= all.take(x as int));
        }
        assert(data@ =~= all);
        let prefetch_lookahead: usize = match prefetch_lookahead {
            Some(n) => n,
            None => PREFETCH_DEFAULT,
        };
        Ok(
            TQStore {
                data,
                num_vectors: count as usize,
                record,
                quantizer,
                metric,
                prefetch_lookahead,
            },
        )
    }

    /// A computer is ready to measure from a rotated query to the vectors of the store.
    pub open spec fn prepared<A: Arithmetic>(
        &self,
        ops: A,
        rotated_query: Seq<Real>,
        c: TQQueryComputer<'_>,
    ) -> bool {
        &&& c.rotated_query@ == rotated_query
        &&& c.query_norm_sq == dot_of(ops, rotated_query, rotated_query)
        &&& *c.centroids == self.codec().table()
        &&& c.inv_sqrt_dim == inverse_root_of_dim(ops, self.codec().dims() as usize)
        &&& c.dim == self.codec().dims()
        &&& c.nbits == self.codec().table().width()
    }

    /// Distances between stored vectors, which only the Euclidean metric has.
    pub fn distance_computer<A: Arithmetic>(&self, ops: &A) -> (r: Result<
        TQDistanceComputer<'_>,
        TQError,
    >)
        requires
            ops.ready(),
            self.codec().dims() <= u32::MAX,
        ensures
            match r {
                Ok(c) => {
                    &&& self.measure() == Metric::L2
                    &&& *c.centroids == self.codec().table()
                    &&& c.inv_sqrt_dim == inverse_root_of_dim(*ops, self.codec().dims() as usize)
                    &&& c.dim == self.codec().dims()
                    &&& c.nbits == self.codec().table().width()
                },
                Err(TQError::UnsupportedDistanceMetric(m)) => m == self.measure() && m
                    != Metric::L2,
                Err(_) => false,
            },
    {
        match self.metric {
            Metric::L2 => Ok(
                TQDistanceComputer {
                    centroids: self.quantizer.centroids(),
                    inv_sqrt_dim: inverse_root(ops, self.quantizer.dim()),
                    dim: self.quantizer.dim(),
                    nbits: self.quantizer.nbits(),
                },
            ),
            unsupported => Err(TQError::UnsupportedDistanceMetric(unsupported)),
        }
    }

    /// Distances of a query to stored vectors; the query is rotated once, by the matrix.
    pub fn query_computer<A: Arithmetic>(&self, ops: &A, query: &[Real]) -> (r: TQQueryComputer<'_>)
        requires
            ops.ready(),
            self.wf(),
            self.codec().dense(),
            query@.len() == self.codec().dims(),
            self.codec().dims() <= u32::MAX,
        ensures
            r.rotated_query@ == rotated(
                *ops,
                self.codec().matrix(),
                self.codec().dims() as int,
                query@,
            ),
            self.prepared(*ops, r.rotated_query@, r),
            r.query_norm_sq == dot_of(*ops, r.rotated_query@, r.rotated_query@),
            *r.centroids == self.codec().table(),
            r.inv_sqrt_dim == inverse_root_of_dim(*ops, self.codec().dims() as usize),
            r.dim == self.codec().dims(),
            r.nbits == self.codec().table().width(),
    {
        let rotated_query = self.quantizer.rotate_query(ops, query);
        self.rotated_query_computer(ops, rotated_query)
    }

    /// Distances of a query that was rotated to stored vectors.
    pub fn rotated_query_computer<A: Arithmetic>(&self, ops: &A, rotated_query: Vec<Real>) -> (r:
        TQQueryComputer<'_>)
        requires
            ops.ready(),
            self.codec().dims() <= u32::MAX,
        ensures
            r.rotated_query == rotated_query,
            self.prepared(*ops, rotated_query@, r),
            r.query_norm_sq == dot_of(*ops, rotated_query@, rotated_query@),
            *r.centroids == self.codec().table(),
            r.inv_sqrt_dim == inverse_root_of_dim(*ops, self.codec().dims() as usize),
            r.dim == self.codec().dims(),
            r.nbits == self.codec().table().width(),
    {
        let query_norm_sq = dot(ops, rotated_query.as_slice(), rotated_query.as_slice());
        TQQueryComputer {
            rotated_query,
            query_norm_sq,
            centroids: self.quantizer.centroids(),
            inv_sqrt_dim: inverse_root(ops, self.quantizer.dim()),
            nbits: self.quantizer.nbits(),
            dim: self.quantizer.dim(),
        }
    }
}

/// Why a store cannot be read back.
#[derive(Clone, Copy, Debug, PartialEq, Eq, Structural)]
pub enum TQLoadError {
    /// The file ends too early.
    Truncated,
    /// The records are not those of the quantizer.
    RecordSize { expected: usize, actual: u32 },
}

/// The verdict on the file of a store.
pub open spec fn load_verdict(file: Seq<u8>, q: TurboQuantQuantizer) -> Result<(), TQLoadError> {
    let record = code_bytes(q.dims() as int, q.table().width() as usize) + 8;
    if file.len() < 8 {
        Err(TQLoadError::Truncated)
    } else if read4(file, 4) != record {
        Err(TQLoadError::RecordSize { expected: record as usize, actual: read4(file, 4) as u32 })
    } else if file.len() < 8 + read4(file, 0) * record {
        Err(TQLoadError::Truncated)
    } else {
        Ok(())
    }
}

/// What is read back of a saved store is what it holds.
pub proof fn saved_store_reads_back(s: TQStore)
    requires
        s.wf(),
        s.count() <= u32::MAX,
        s.record_size() <= u32::MAX,
    ensures
        load_verdict(s.file_bytes(), s.codec()) == Ok::<(), TQLoadError>(()),
        read4(s.file_bytes(), 0) == s.count(),
        read4(s.file_bytes(), 4) == s.record_size(),
        s.file_bytes().subrange(
            8,
            8 + read4(s.file_bytes(), 0) * read4(s.file_bytes(), 4),
        ) == s.contents(),
{
    let file = s.file_bytes();
    let n = s.count() as u32;
    let size = s.record_size() as u32;
    le4_reads_back(n);
    le4_reads_back(size);
    s.contents_are_records();
    assert(read4(file, 0) == read4(le4(n), 0));
    assert(read4(file, 4) == read4(le4(size), 0));
    assert(file.subrange(8, 8 + s.contents().len() as int) =~= s.contents());
}

/// The numbers that are stored with the vector `v`, which was rotated to `y`.
pub open spec fn meta_of_rotated<A: Arithmetic>(
    ops: A,
    q: TurboQuantQuantizer,
    v: Seq<Real>,
    y: Seq<Real>,
) -> TurboQuantMeta {
    let norm = ops.root(dot_of(ops, v, v));
    TurboQuantMeta {
        norm,
        quant_norm_sq: squares_upto(
            ops,
            q.table().values(),
            q.inverse_root(),
            norm,
            q.codes_of_rotated(ops, norm, y),
            q.dims() as int,
        ),
    }
}

/// The record of the vector `v`, which was rotated to `y`: its packed codes and two numbers.
pub open spec fn record_of_rotated<A: Arithmetic>(
    ops: A,
    q: TurboQuantQuantizer,
    v: Seq<Real>,
    y: Seq<Real>,
) -> Seq<u8> {
    encoded_bytes(
        q.codes_of_rotated(ops, ops.root(dot_of(ops, v, v)), y),
        q.table().width() as usize,
        meta_of_rotated(ops, q, v, y),
    )
}

/// The record of the vector `v`, which is rotated by the matrix.
pub open spec fn record_of<A: Arithmetic>(
    ops: A,
    q: TurboQuantQuantizer,
    v: Seq<Real>,
) -> Seq<u8> {
    record_of_rotated(ops, q, v, rotated(ops, q.matrix(), q.dims() as int, v))
}

/// Which vector to fetch ahead while the one at place `i` of `len` is read.
pub fn fetch_ahead(i: usize, lookahead: usize, len: usize) -> (r: Option<usize>)
    ensures
        r == if lookahead > 0 && i + lookahead < len {
            Some((i + lookahead) as usize)
        } else {
            None
        },
{
    if lookahead > 0 && i < len && lookahead < len - i {
        Some(i + lookahead)
    } else {
        None
    }
}

/// The lock that guards vector `i`.
pub fn write_lock_of(i: usize) -> (r: usize)
    ensures
        r == i as int / 16,
{
    i / WRITE_LOCK_GRANULARITY
}

} // verus!
