//! Rotation and scalar quantization of vectors, and distances to what was quantized.
//!
//! A vector is rotated, scaled to unit variance and quantized component by component. Distances
//! are computed in the rotated space, from the codes and two numbers per vector.

use crate::arith::Arithmetic;
use crate::centroids::{code_separates, LloydMaxCentroids};
use crate::gemm::{dot, dot_of, row_slice};
use crate::leaf_build::{floor_at_zero, floored};
use crate::measure::row;
use crate::number::{count_bits, from_count, Real, TWO_BITS};
use crate::tq_codes::TurboQuantMeta;
use vstd::prelude::*;

verus! {

/// Encoding of the length up to which a vector counts as zero, a ten-billionth.
pub const TINY_BITS: u32 = 0x2edb_e6ff;

/// The square root of a dimension.
pub open spec fn root_of_dim<A: Arithmetic>(ops: A, dim: usize) -> Real {
    ops.root(Real { bits: count_bits(dim as nat) as u32 })
}

/// One over the square root of a dimension.
pub open spec fn inverse_root_of_dim<A: Arithmetic>(ops: A, dim: usize) -> Real {
    ops.quotient(Real::spec_one(), root_of_dim(ops, dim))
}

/// Computes one over the square root of a dimension.
pub(crate) fn inverse_root<A: Arithmetic>(ops: &A, dim: usize) -> (r: Real)
    requires
        ops.ready(),
        dim <= u32::MAX,
    ensures
        r == inverse_root_of_dim(*ops, dim),
{
    let root = ops.sqrt(from_count(dim as u32));
    ops.over(Real::one(), root)
}

/// A matrix times a vector.
pub open spec fn rotated<A: Arithmetic>(ops: A, m: Seq<Real>, dim: int, x: Seq<Real>) -> Seq<Real> {
    Seq::new(dim as nat, |i: int| dot_of(ops, row(m, dim, i), x))
}

/// Component `j` of a transposed matrix times a vector, summed over the first `n` rows.
pub open spec fn transposed_upto<A: Arithmetic>(
    ops: A,
    m: Seq<Real>,
    dim: int,
    x: Seq<Real>,
    j: int,
    n: int,
) -> Real
    decreases n,
{
    if n <= 0 {
        Real::spec_zero()
    } else {
        ops.sum(
            transposed_upto(ops, m, dim, x, j, n - 1),
            ops.product(row(m, dim, n - 1)[j], x[n - 1]),
        )
    }
}

/// A transposed matrix times a vector.
pub open spec fn rotated_back<A: Arithmetic>(ops: A, m: Seq<Real>, dim: int, x: Seq<Real>) -> Seq<
    Real,
> {
    Seq::new(dim as nat, |j: int| transposed_upto(ops, m, dim, x, j, dim))
}

/// Multiplies a matrix by a vector.
fn mat_vec_mul<A: Arithmetic>(ops: &A, m: &[Real], x: &[Real], dim: usize) -> (y: Vec<Real>)
    requires
        ops.ready(),
        m@.len() == dim * dim,
        x@.len() == dim,
    ensures
        y@ == rotated(*ops, m@, dim as int, x@),
{
    let mut y: Vec<Real> = Vec::with_capacity(dim);
    let mut i: usize = 0;
    while i < dim
        invariant
            i <= dim,
            ops.ready(),
            m@.len() == dim * dim,
            x@.len() == dim,
            y@.len() == i,
            forall|k: int| 0 <= k < i ==> #[trigger] y@[k] == dot_of(*ops, row(m@, dim as int, k), x@),
        decreases dim - i,
    {
        let r = row_slice(m, dim, i, Ghost(dim as int));
        y.push(dot(ops, r, x));
        i += 1;
    }
    assert(y@ =~= rotated(*ops, m@, dim as int, x@));
    y
}

/// Multiplies a transposed matrix by a vector.
fn mat_transpose_vec_mul<A: Arithmetic>(ops: &A, m: &[Real], x: &[Real], dim: usize) -> (y: Vec<
    Real,
>)
    requires
        ops.ready(),
        m@.len() == dim * dim,
        x@.len() == dim,
    ensures
        y@ == rotated_back(*ops, m@, dim as int, x@),
{
    let mut y: Vec<Real> = vec![Real::zero(); dim];
    let mut i: usize = 0;
    while i < dim
        invariant
            i <= dim,
            ops.ready(),
            m@.len() == dim * dim,
            x@.len() == dim,
            y@.len() == dim,
            forall|j: int|
                0 <= j < dim ==> #[trigger] y@[j] == transposed_upto(
                    *ops,
                    m@,
                    dim as int,
                    x@,
                    j,
                    i as int,
                ),
        decreases dim - i,
    {
        let r = row_slice(m, dim, i, Ghost(dim as int));
        let ghost prior = y@;
        let mut j: usize = 0;
        while j < dim
            invariant
                i < dim,
                j <= dim,
                ops.ready(),
                x@.len() == dim,
                r@ == row(m@, dim as int, i as int),
                r@.len() == dim,
                y@.len() == dim,
                prior.len() == dim,
                forall|k: int|
                    0 <= k < dim ==> #[trigger] prior[k] == transposed_upto(
                        *ops,
                        m@,
                        dim as int,
                        x@,
                        k,
                        i as int,
                    ),
                forall|k: int| j <= k < dim ==> #[trigger] y@[k] == prior[k],
                forall|k: int|
                    0 <= k < j ==> #[trigger] y@[k] == transposed_upto(
                        *ops,
                        m@,
                        dim as int,
                        x@,
                        k,
                        i + 1,
                    ),
            decreases dim - j,
        {
            assert(y@[j as int] == prior[j as int]);
            let p = ops.times(r[j], x[i]);
            let s = ops.plus(y[j], p);
            y.set(j, s);
            j += 1;
        }
        i += 1;
    }
    assert(y@ =~= rotated_back(*ops, m@, dim as int, x@));
    y
}

/// An encoded vector.
#[derive(Debug)]
pub struct EncodedVector {
    /// One code per component.
    pub codes: Vec<u8>,
    /// Length of the original vector.
    pub norm: Real,
    /// Squared length of the reconstructed vector.
    pub quant_norm_sq: Real,
}

/// The reconstruction of a code in rotated space.
pub open spec fn reconstructed<A: Arithmetic>(
    ops: A,
    values: Seq<Real>,
    inv_sqrt_dim: Real,
    norm: Real,
    code: u8,
) -> Real {
    ops.product(ops.product(values[code as int], inv_sqrt_dim), norm)
}

/// The squared reconstructions of the first `n` codes, summed.
pub open spec fn squares_upto<A: Arithmetic>(
    ops: A,
    values: Seq<Real>,
    inv_sqrt_dim: Real,
    norm: Real,
    codes: Seq<u8>,
    n: int,
) -> Real
    decreases n,
{
    if n <= 0 {
        Real::spec_zero()
    } else {
        let r = reconstructed(ops, values, inv_sqrt_dim, norm, codes[n - 1]);
        ops.sum(
            squares_upto(ops, values, inv_sqrt_dim, norm, codes, n - 1),
            ops.product(r, r),
        )
    }
}

/// The first `n` components of a query times the values of codes, summed.
pub open spec fn weighted_upto<A: Arithmetic>(
    ops: A,
    values: Seq<Real>,
    query: Seq<Real>,
    codes: Seq<u8>,
    n: int,
) -> Real
    decreases n,
{
    if n <= 0 {
        Real::spec_zero()
    } else {
        ops.sum(
            weighted_upto(ops, values, query, codes, n - 1),
            ops.product(query[n - 1], values[codes[n - 1] as int]),
        )
    }
}

/// The squared differences of two reconstructions over the first `n` codes, summed.
pub open spec fn differences_upto<A: Arithmetic>(
    ops: A,
    values: Seq<Real>,
    scale_a: Real,
    scale_b: Real,
    a: Seq<u8>,
    b: Seq<u8>,
    n: int,
) -> Real
    decreases n,
{
    if n <= 0 {
        Real::spec_zero()
    } else {
        let d = ops.difference(
            ops.product(values[a[n - 1] as int], scale_a),
            ops.product(values[b[n - 1] as int], scale_b),
        );
        ops.sum(
            differences_upto(ops, values, scale_a, scale_b, a, b, n - 1),
            ops.product(d, d),
        )
    }
}

/// The length of a vector.
pub open spec fn length_of<A: Arithmetic>(ops: A, x: Seq<Real>) -> Real {
    ops.root(dot_of(ops, x, x))
}

/// The inner product of a rotated query with the reconstruction of an encoded vector of length
/// `norm`, over the first `n` codes.
pub open spec fn scaled_product<A: Arithmetic>(
    ops: A,
    values: Seq<Real>,
    inv_sqrt_dim: Real,
    query: Seq<Real>,
    codes: Seq<u8>,
    n: int,
    norm: Real,
) -> Real {
    ops.product(weighted_upto(ops, values, query, codes, n), ops.product(inv_sqrt_dim, norm))
}

/// The squared distance of the reconstructions of two encoded vectors, over the first `n` codes.
pub open spec fn encoded_distance<A: Arithmetic>(
    ops: A,
    values: Seq<Real>,
    inv_sqrt_dim: Real,
    a: Seq<u8>,
    a_norm: Real,
    b: Seq<u8>,
    b_norm: Real,
    n: int,
) -> Real {
    differences_upto(
        ops,
        values,
        ops.product(inv_sqrt_dim, a_norm),
        ops.product(inv_sqrt_dim, b_norm),
        a,
        b,
        n,
    )
}

/// The squared distance of a rotated query to an encoded vector: the squared length of the query,
/// minus twice its scaled product with the codes, plus the squared length of the reconstruction;
/// never below zero.
pub open spec fn query_distance<A: Arithmetic>(
    ops: A,
    values: Seq<Real>,
    inv_sqrt_dim: Real,
    query: Seq<Real>,
    query_norm_sq: Real,
    codes: Seq<u8>,
    n: int,
    meta: TurboQuantMeta,
) -> Real {
    let ip = ops.product(
        weighted_upto(ops, values, query, codes, n),
        ops.product(inv_sqrt_dim, meta.norm),
    );
    floored(
        ops.sum(
            ops.difference(query_norm_sq, ops.product(Real { bits: TWO_BITS }, ip)),
            meta.quant_norm_sq,
        ),
    )
}

/// Every code of a list has a value.
pub open spec fn codes_valid(codes: Seq<u8>, values: Seq<Real>, n: int) -> bool {
    &&& n <= codes.len()
    &&& forall|j: int| 0 <= j < n ==> (#[trigger] codes[j]) < values.len()
}

/// Sums the components of a query times the values of codes.
fn weighted<A: Arithmetic>(ops: &A, values: &[Real], query: &[Real], codes: &[u8], n: usize) -> (r:
    Real)
    requires
        ops.ready(),
        n <= query@.len(),
        codes_valid(codes@, values@, n as int),
    ensures
        r == weighted_upto(*ops, values@, query@, codes@, n as int),
{
    let mut acc = Real::zero();
    let mut j: usize = 0;
    while j < n
        invariant
            j <= n <= query@.len(),
            ops.ready(),
            codes_valid(codes@, values@, n as int),
            acc == weighted_upto(*ops, values@, query@, codes@, j as int),
        decreases n - j,
    {
        assert(codes@[j as int] < values@.len());
        let p = ops.times(query[j], values[codes[j] as usize]);
        acc = ops.plus(acc, p);
        j += 1;
    }
    acc
}

/// How vectors are rotated.
#[derive(Debug)]
pub enum RotationMode {
    /// By a matrix, row by row.
    DenseMatrix(Vec<Real>),
    /// By a fast transform of the caller, which hands rotated vectors in.
    Hadamard,
}

/// The rotation, the table of the scalar quantizer, and what follows from the dimension.
#[derive(Debug)]
pub struct TurboQuantQuantizer {
    dim: usize,
    rotation: RotationMode,
    centroids: LloydMaxCentroids,
    inv_sqrt_dim: Real,
    sqrt_dim: Real,
}

impl TurboQuantQuantizer {
    /// Length of a vector.
    pub closed spec fn dims(&self) -> nat {
        self.dim as nat
    }

    /// How vectors are rotated.
    pub closed spec fn mode(&self) -> RotationMode {
        self.rotation
    }

    /// Vectors are rotated by a matrix.
    pub open spec fn dense(&self) -> bool {
        self.mode() is DenseMatrix
    }

    /// The rotation matrix, row by row.
    pub open spec fn matrix(&self) -> Seq<Real> {
        match self.mode() {
            RotationMode::DenseMatrix(m) => m@,
            RotationMode::Hadamard => Seq::empty(),
        }
    }

    /// The table of the scalar quantizer.
    pub closed spec fn table(&self) -> LloydMaxCentroids {
        self.centroids
    }

    /// One over the square root of the dimension.
    pub closed spec fn inverse_root(&self) -> Real {
        self.inv_sqrt_dim
    }

    /// The square root of the dimension.
    pub closed spec fn root(&self) -> Real {
        self.sqrt_dim
    }

    /// A rotation matrix is square, and the table in order.
    pub open spec fn wf(&self) -> bool {
        &&& self.dense() ==> self.matrix().len() == self.dims() * self.dims()
        &&& self.dims() <= usize::MAX
        &&& self.table().wf()
    }

    /// The factor that brings a vector of length `norm` to unit variance; zero for a vector that
    /// counts as zero.
    pub open spec fn scale_for<A: Arithmetic>(&self, ops: A, norm: Real) -> Real {
        if (Real { bits: TINY_BITS }).lt(norm) {
            ops.quotient(self.root(), norm)
        } else {
            Real::spec_zero()
        }
    }

    /// The codes of a vector of length `norm` that was rotated to `y`.
    pub open spec fn codes_of_rotated<A: Arithmetic>(
        &self,
        ops: A,
        norm: Real,
        y: Seq<Real>,
    ) -> Seq<u8> {
        let scale = self.scale_for(ops, norm);
        Seq::new(self.dims(), |j: int| self.table().code_of(ops.product(y[j], scale)))
    }

    /// The codes of a vector that is rotated by the matrix.
    pub open spec fn codes_for<A: Arithmetic>(&self, ops: A, x: Seq<Real>) -> Seq<u8> {
        self.codes_of_rotated(
            ops,
            length_of(ops, x),
            rotated(ops, self.matrix(), self.dims() as int, x),
        )
    }

    /// Every code of a vector has a value.
    pub proof fn codes_have_values<A: Arithmetic>(&self, ops: A, norm: Real, y: Seq<Real>)
        requires
            self.wf(),
        ensures
            codes_valid(
                self.codes_of_rotated(ops, norm, y),
                self.table().values(),
                self.dims() as int,
            ),
    {
        let codes = self.codes_of_rotated(ops, norm, y);
        let scale = self.scale_for(ops, norm);
        assert forall|j: int| 0 <= j < self.dims() implies (#[trigger] codes[j])
            < self.table().values().len() by {
            code_separates(self.table().bounds(), ops.product(y[j], scale), 0);
        }
    }

    fn with_mode<A: Arithmetic>(
        ops: &A,
        dim: usize,
        rotation: RotationMode,
        centroids: LloydMaxCentroids,
    ) -> (r: Self)
        requires
            ops.ready(),
            dim <= u32::MAX,
        ensures
            r.dims() == dim,
            r.mode() == rotation,
            r.table() == centroids,
            r.root() == root_of_dim(*ops, dim),
            r.inverse_root() == inverse_root_of_dim(*ops, dim),
    {
        let sqrt_dim = ops.sqrt(from_count(dim as u32));
        let inv_sqrt_dim = ops.over(Real::one(), sqrt_dim);
        TurboQuantQuantizer { dim, rotation, centroids, inv_sqrt_dim, sqrt_dim }
    }

    /// A quantizer with the given rotation matrix and table.
    pub fn with_rotation<A: Arithmetic>(
        ops: &A,
        dim: usize,
        rotation: Vec<Real>,
        centroids: LloydMaxCentroids,
    ) -> (r: Self)
        requires
            ops.ready(),
            dim <= u32::MAX,
            rotation@.len() == dim * dim,
            centroids.wf(),
        ensures
            r.wf(),
            r.dims() == dim,
            r.mode() == RotationMode::DenseMatrix(rotation),
            r.matrix() == rotation@,
            r.table() == centroids,
            r.root() == root_of_dim(*ops, dim),
            r.inverse_root() == inverse_root_of_dim(*ops, dim),
    {
        TurboQuantQuantizer::with_mode(ops, dim, RotationMode::DenseMatrix(rotation), centroids)
    }

    /// A quantizer for vectors that the caller rotates by a fast transform.
    pub fn new_hadamard<A: Arithmetic>(ops: &A, dim: usize, centroids: LloydMaxCentroids) -> (r:
        Self)
        requires
            ops.ready(),
            0 < dim <= u32::MAX,
            centroids.wf(),
        ensures
            r.wf(),
            r.dims() == dim,
            r.mode() == RotationMode::Hadamard,
            r.table() == centroids,
            r.root() == root_of_dim(*ops, dim),
            r.inverse_root() == inverse_root_of_dim(*ops, dim),
    {
        TurboQuantQuantizer::with_mode(ops, dim, RotationMode::Hadamard, centroids)
    }

    /// How vectors are rotated.
    pub fn rotation(&self) -> (r: &RotationMode)
        ensures
            *r == self.mode(),
    {
        &self.rotation
    }

    /// Length of a vector.
    pub fn dim(&self) -> (r: usize)
        ensures
            r == self.dims(),
    {
        self.dim
    }

    /// Bits per code.
    pub fn nbits(&self) -> (r: usize)
        ensures
            r == self.table().width(),
    {
        self.centroids.nbits()
    }

    /// The rotation matrix, row by row.
    pub fn rotation_matrix(&self) -> (r: &[Real])
        requires
            self.dense(),
        ensures
            r@ == self.matrix(),
    {
        match &self.rotation {
            RotationMode::DenseMatrix(m) => m.as_slice(),
            RotationMode::Hadamard => {
                assert(false);
                &[]
            },
        }
    }

    /// The table of the scalar quantizer.
    pub fn centroids(&self) -> (r: &LloydMaxCentroids)
        ensures
            *r == self.table(),
    {
        &self.centroids
    }

    /// Encodes a vector: rotates it by the matrix, scales it to unit variance, and quantizes every
    /// component.
    pub fn encode<A: Arithmetic>(&self, ops: &A, x: &[Real]) -> (e: EncodedVector)
        requires
            ops.ready(),
            self.wf(),
            self.dense(),
            x@.len() == self.dims(),
        ensures
            e.codes@ == self.codes_for(*ops, x@),
            codes_valid(e.codes@, self.table().values(), self.dims() as int),
            e.norm == length_of(*ops, x@),
            e.norm == ops.root(dot_of(*ops, x@, x@)),
            e.quant_norm_sq == squares_upto(
                *ops,
                self.table().values(),
                self.inverse_root(),
                e.norm,
                e.codes@,
                self.dims() as int,
            ),
    {
        let y = self.rotate_query(ops, x);
        self.encode_rotated(ops, x, y.as_slice())
    }

    /// Encodes the vector `x`, which was rotated to `y`: scales it to unit variance, and quantizes
    /// every component.
    pub fn encode_rotated<A: Arithmetic>(&self, ops: &A, x: &[Real], y: &[Real]) -> (e:
        EncodedVector)
        requires
            ops.ready(),
            self.wf(),
            x@.len() == self.dims(),
            y@.len() == self.dims(),
        ensures
            e.norm == length_of(*ops, x@),
            e.norm == ops.root(dot_of(*ops, x@, x@)),
            e.codes@ == self.codes_of_rotated(*ops, e.norm, y@),
            codes_valid(e.codes@, self.table().values(), self.dims() as int),
            e.quant_norm_sq == squares_upto(
                *ops,
                self.table().values(),
                self.inverse_root(),
                e.norm,
                e.codes@,
                self.dims() as int,
            ),
    {
        let norm_sq = dot(ops, x, x);
        let norm = ops.sqrt(norm_sq);
        let scale = if Real::from_bits(TINY_BITS).is_less(norm) {
            ops.over(self.sqrt_dim, norm)
        } else {
            Real::zero()
        };
        let mut codes: Vec<u8> = Vec::with_capacity(self.dim);
        let mut quant_norm_sq = Real::zero();
        let ghost values = self.table().values();
        let ghost goal = self.codes_of_rotated(*ops, norm, y@);
        let mut j: usize = 0;
        while j < self.dim
            invariant
                j <= self.dim,
                ops.ready(),
                self.wf(),
                y@.len() == self.dim,
                scale == self.scale_for(*ops, norm),
                values == self.table().values(),
                goal == self.codes_of_rotated(*ops, norm, y@),
                codes@.len() == j,
                forall|k: int| 0 <= k < j ==> #[trigger] codes@[k] == goal[k],
                forall|k: int| 0 <= k < j ==> (#[trigger] codes@[k]) < values.len(),
                quant_norm_sq == squares_upto(
                    *ops,
                    values,
                    self.inverse_root(),
                    norm,
                    goal,
                    j as int,
                ),
            decreases self.dim - j,
        {
            let scaled = ops.times(y[j], scale);
            let code: u8 = self.centroids.quantize(scaled);
            assert(code == goal[j as int]);
            codes.push(code);
            let half = ops.times(self.centroids.centroid(code), self.inv_sqrt_dim);
            let recon = ops.times(half, norm);
            let square = ops.times(recon, recon);
            quant_norm_sq = ops.plus(quant_norm_sq, square);
            j += 1;
        }
        assert(codes@ =~= goal);
        EncodedVector { codes, norm, quant_norm_sq }
    }

    /// The reconstruction of an encoded vector in rotated space.
    pub open spec fn reconstruction<A: Arithmetic>(
        &self,
        ops: A,
        codes: Seq<u8>,
        norm: Real,
    ) -> Seq<Real> {
        Seq::new(
            self.dims(),
            |j: int|
                reconstructed(ops, self.table().values(), self.inverse_root(), norm, codes[j]),
        )
    }

    /// Decodes a vector: reconstructs it in rotated space and rotates it back by the matrix.
    pub fn decode<A: Arithmetic>(&self, ops: &A, encoded: &EncodedVector) -> (x: Vec<Real>)
        requires
            ops.ready(),
            self.wf(),
            self.dense(),
            codes_valid(encoded.codes@, self.table().values(), self.dims() as int),
        ensures
            x@ == rotated_back(
                *ops,
                self.matrix(),
                self.dims() as int,
                self.reconstruction(*ops, encoded.codes@, encoded.norm),
            ),
    {
        let y = self.decode_rotated(ops, encoded);
        mat_transpose_vec_mul(ops, self.rotation_matrix(), y.as_slice(), self.dim)
    }

    /// Decodes a vector: reconstructs it in rotated space and rotates it back by `inverse`, the
    /// inverse of the transform that it was rotated with.
    pub fn decode_with<A: Arithmetic, F: Fn(&[Real]) -> Vec<Real>>(
        &self,
        ops: &A,
        encoded: &EncodedVector,
        inverse: &F,
    ) -> (x: Vec<Real>)
        requires
            ops.ready(),
            self.wf(),
            codes_valid(encoded.codes@, self.table().values(), self.dims() as int),
            forall|y: &[Real]| y@.len() == self.dims() ==> #[trigger] inverse.requires((y,)),
        ensures
            exists|y: &[Real]|
                y@ == self.reconstruction(*ops, encoded.codes@, encoded.norm)
                    && #[trigger] inverse.ensures((y,), x),
    {
        let y = self.decode_rotated(ops, encoded);
        let s = y.as_slice();
        assert(s@ == y@);
        inverse(s)
    }

    /// The reconstruction of an encoded vector in rotated space.
    pub fn decode_rotated<A: Arithmetic>(&self, ops: &A, encoded: &EncodedVector) -> (y: Vec<Real>)
        requires
            ops.ready(),
            self.wf(),
            codes_valid(encoded.codes@, self.table().values(), self.dims() as int),
        ensures
            y@ == self.reconstruction(*ops, encoded.codes@, encoded.norm),
    {
        let mut y: Vec<Real> = Vec::with_capacity(self.dim);
        let mut j: usize = 0;
        while j < self.dim
            invariant
                j <= self.dim,
                ops.ready(),
                self.wf(),
                codes_valid(encoded.codes@, self.table().values(), self.dim as int),
                y@.len() == j,
                forall|k: int|
                    0 <= k < j ==> #[trigger] y@[k] == reconstructed(
                        *ops,
                        self.table().values(),
                        self.inverse_root(),
                        encoded.norm,
                        encoded.codes@[k],
                    ),
            decreases self.dim - j,
        {
            assert(encoded.codes@[j as int] < self.table().values().len());
            let half = ops.times(self.centroids.centroid(encoded.codes[j]), self.inv_sqrt_dim);
            y.push(ops.times(half, encoded.norm));
            j += 1;
        }
        assert(y@ =~= self.reconstruction(*ops, encoded.codes@, encoded.norm));
        y
    }

    /// Rotates a query by the matrix.
    pub fn rotate_query<A: Arithmetic>(&self, ops: &A, query: &[Real]) -> (r: Vec<Real>)
        requires
            ops.ready(),
            self.wf(),
            self.dense(),
            query@.len() == self.dims(),
        ensures
            r@ == rotated(*ops, self.matrix(), self.dims() as int, query@),
    {
        mat_vec_mul(ops, self.rotation_matrix(), query, self.dim)
    }

    /// The squared distance of a rotated query to an encoded vector.
    pub fn distance_l2_squared<A: Arithmetic>(
        &self,
        ops: &A,
        rotated_query: &[Real],
        query_norm_sq: Real,
        encoded: &EncodedVector,
    ) -> (r: Real)
        requires
            ops.ready(),
            self.wf(),
            rotated_query@.len() >= self.dims(),
            codes_valid(encoded.codes@, self.table().values(), self.dims() as int),
        ensures
            r == query_distance(
                *ops,
                self.table().values(),
                self.inverse_root(),
                rotated_query@,
                query_norm_sq,
                encoded.codes@,
                self.dims() as int,
                (TurboQuantMeta { norm: encoded.norm, quant_norm_sq: encoded.quant_norm_sq }),
            ),
            !r.nan(),
            !r.lt(Real::spec_zero()),
    {
        let sum = weighted(
            ops,
            self.centroids.centroids(),
            rotated_query,
            encoded.codes.as_slice(),
            self.dim,
        );
        let scale = ops.times(self.inv_sqrt_dim, encoded.norm);
        let ip = ops.times(sum, scale);
        let twice = ops.times(Real::from_bits(TWO_BITS), ip);
        let rest = ops.minus(query_norm_sq, twice);
        floor_at_zero(ops.plus(rest, encoded.quant_norm_sq))
    }

    /// The inner product of a rotated query with an encoded vector.
    pub fn inner_product<A: Arithmetic>(
        &self,
        ops: &A,
        rotated_query: &[Real],
        encoded: &EncodedVector,
    ) -> (r: Real)
        requires
            ops.ready(),
            self.wf(),
            rotated_query@.len() >= self.dims(),
            codes_valid(encoded.codes@, self.table().values(), self.dims() as int),
        ensures
            r == scaled_product(
                *ops,
                self.table().values(),
                self.inverse_root(),
                rotated_query@,
                encoded.codes@,
                self.dims() as int,
                encoded.norm,
            ),
            r == ops.product(
                weighted_upto(
                    *ops,
                    self.table().values(),
                    rotated_query@,
                    encoded.codes@,
                    self.dims() as int,
                ),
                ops.product(self.inverse_root(), encoded.norm),
            ),
    {
        let sum = weighted(
            ops,
            self.centroids.centroids(),
            rotated_query,
            encoded.codes.as_slice(),
            self.dim,
        );
        let scale = ops.times(self.inv_sqrt_dim, encoded.norm);
        ops.times(sum, scale)
    }

    /// The squared distance of two encoded vectors, in rotated space.
    pub fn distance_encoded_l2_squared<A: Arithmetic>(
        &self,
        ops: &A,
        a: &EncodedVector,
        b: &EncodedVector,
    ) -> (r: Real)
        requires
            ops.ready(),
            self.wf(),
            codes_valid(a.codes@, self.table().values(), self.dims() as int),
            codes_valid(b.codes@, self.table().values(), self.dims() as int),
        ensures
            r == encoded_distance(
                *ops,
                self.table().values(),
                self.inverse_root(),
                a.codes@,
                a.norm,
                b.codes@,
                b.norm,
                self.dims() as int,
            ),
            r == differences_upto(
                *ops,
                self.table().values(),
                ops.product(self.inverse_root(), a.norm),
                ops.product(self.inverse_root(), b.norm),
                a.codes@,
                b.codes@,
                self.dims() as int,
            ),
    {
        let scale_a = ops.times(self.inv_sqrt_dim, a.norm);
        let scale_b = ops.times(self.inv_sqrt_dim, b.norm);
        let mut sum = Real::zero();
        let mut j: usize = 0;
        while j < self.dim
            invariant
                j <= self.dim,
                ops.ready(),
                self.wf(),
                codes_valid(a.codes@, self.table().values(), self.dim as int),
                codes_valid(b.codes@, self.table().values(), self.dim as int),
                sum == differences_upto(
                    *ops,
                    self.table().values(),
                    scale_a,
                    scale_b,
                    a.codes@,
                    b.codes@,
                    j as int,
                ),
            decreases self.dim - j,
        {
            assert(a.codes@[j as int] < self.table().values().len());
            assert(b.codes@[j as int] < self.table().values().len());
            let va = ops.times(self.centroids.centroid(a.codes[j]), scale_a);
            let vb = ops.times(self.centroids.centroid(b.codes[j]), scale_b);
            let d = ops.minus(va, vb);
            let square = ops.times(d, d);
            sum = ops.plus(sum, square);
            j += 1;
        }
        sum
    }

    /// Bytes of the codes of a vector, one per component.
    pub fn code_bytes_per_vector(&self) -> (r: usize)
        ensures
            r == self.dims(),
    {
        self.dim
    }

    /// Bytes of an encoded vector: codes and two numbers.
    pub fn total_bytes_per_vector(&self) -> (r: usize)
        requires
            self.dims() + 8 <= usize::MAX,
        ensures
            r == self.dims() + 8,
    {
        self.dim + 8
    }
}

/// An encoded vector that owns its codes.
#[derive(Debug)]
pub struct TurboQuantData {
    codes: Vec<u8>,
    meta: TurboQuantMeta,
}

/// An encoded vector that borrows its codes.
#[derive(Clone, Copy, Debug)]
pub struct TurboQuantDataRef<'a> {
    pub codes: &'a [u8],
    pub meta: &'a TurboQuantMeta,
}

/// An encoded vector that can be changed through its borrow.
#[derive(Debug)]
pub struct TurboQuantDataMut<'a> {
    pub codes: &'a mut [u8],
    pub meta: &'a mut TurboQuantMeta,
}

impl TurboQuantData {
    /// The codes.
    pub closed spec fn code_seq(&self) -> Seq<u8> {
        self.codes@
    }

    /// The numbers beside the codes.
    pub closed spec fn numbers(&self) -> TurboQuantMeta {
        self.meta
    }

    /// An encoded vector from its parts.
    pub fn new(codes: Vec<u8>, norm: Real, quant_norm_sq: Real) -> (r: Self)
        ensures
            r.code_seq() == codes@,
            r.numbers() == (TurboQuantMeta { norm, quant_norm_sq }),
    {
        TurboQuantData { codes, meta: TurboQuantMeta { norm, quant_norm_sq } }
    }

    /// The codes.
    pub fn codes(&self) -> (r: &[u8])
        ensures
            r@ == self.code_seq(),
    {
        self.codes.as_slice()
    }

    /// The numbers beside the codes.
    pub fn meta(&self) -> (r: &TurboQuantMeta)
        ensures
            *r == self.numbers(),
    {
        &self.meta
    }

    /// Borrows the vector.
    pub fn as_ref(&self) -> (r: TurboQuantDataRef<'_>)
        ensures
            r.codes@ == self.code_seq(),
            *r.meta == self.numbers(),
    {
        TurboQuantDataRef { codes: self.codes.as_slice(), meta: &self.meta }
    }
}

impl TurboQuantData {
    /// Borrows the vector for changes; the codes and the numbers end up as the borrow leaves them.
    pub fn as_mut(&mut self) -> (r: TurboQuantDataMut<'_>)
        ensures
            r.codes@ == old(self).code_seq(),
            *r.meta == old(self).numbers(),
            final(self).code_seq() == final(r.codes)@,
            final(self).numbers() == *final(r.meta),
    {
        TurboQuantDataMut { codes: self.codes.as_mut_slice(), meta: &mut self.meta }
    }
}

/// Distances between rotated queries and encoded vectors.
#[derive(Debug)]
pub struct TurboQuantL2 {
    centroids: LloydMaxCentroids,
    inv_sqrt_dim: Real,
}

impl TurboQuantL2 {
    /// The table of the scalar quantizer.
    pub closed spec fn table(&self) -> LloydMaxCentroids {
        self.centroids
    }

    /// One over the square root of the dimension.
    pub closed spec fn inverse_root(&self) -> Real {
        self.inv_sqrt_dim
    }

    /// Distances for vectors of length `dim` that were quantized with the given table.
    pub fn new<A: Arithmetic>(ops: &A, centroids: LloydMaxCentroids, dim: usize) -> (r: Self)
        requires
            ops.ready(),
            dim <= u32::MAX,
        ensures
            r.table() == centroids,
            r.inverse_root() == inverse_root_of_dim(*ops, dim),
    {
        let inv_sqrt_dim = inverse_root(ops, dim);
        TurboQuantL2 { centroids, inv_sqrt_dim }
    }

    /// The squared distance of a rotated query to an encoded vector.
    pub fn evaluate<A: Arithmetic>(
        &self,
        ops: &A,
        rotated_query: &[Real],
        query_norm_sq: Real,
        codes: &[u8],
        meta: &TurboQuantMeta,
    ) -> (r: Real)
        requires
            ops.ready(),
            codes@.len() <= rotated_query@.len(),
            codes_valid(codes@, self.table().values(), codes@.len() as int),
        ensures
            r == query_distance(
                *ops,
                self.table().values(),
                self.inverse_root(),
                rotated_query@,
                query_norm_sq,
                codes@,
                codes@.len() as int,
                *meta,
            ),
            !r.nan(),
            !r.lt(Real::spec_zero()),
    {
        let sum = weighted(ops, self.centroids.centroids(), rotated_query, codes, codes.len());
        let scale = ops.times(self.inv_sqrt_dim, meta.norm);
        let ip = ops.times(sum, scale);
        let twice = ops.times(Real::from_bits(TWO_BITS), ip);
        let rest = ops.minus(query_norm_sq, twice);
        floor_at_zero(ops.plus(rest, meta.quant_norm_sq))
    }
}

/// Rotating what was decoded with an inverse gives the reconstruction back, if `forward` undoes
/// `inverse`.
pub proof fn decoded_rotates_back<F: Fn(&[Real]) -> Vec<Real>, G: Fn(&[Real]) -> Vec<Real>>(
    inverse: F,
    forward: G,
    reconstruction: Seq<Real>,
    decoded: Vec<Real>,
    x: &[Real],
    rotated: Vec<Real>,
)
    requires
        forall|y: &[Real], z: Vec<Real>, s: &[Real], w: Vec<Real>|
            #[trigger] inverse.ensures((y,), z) && #[trigger] forward.ensures((s,), w) && s@ == z@
                ==> w@ == y@,
        exists|y: &[Real]| y@ == reconstruction && #[trigger] inverse.ensures((y,), decoded),
        x@ == decoded@,
        forward.ensures((x,), rotated),
    ensures
        rotated@ == reconstruction,
{
}

} // verus!
