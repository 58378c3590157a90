//! Sketches of vectors by random projection, and the buckets that they give to neighbours.
//!
//! A sketch holds the dot products of a vector with a few hyperplanes. The bucket of a candidate,
//! seen from a node, has one bit per hyperplane: whether the candidate's product is at least the
//! node's.

use crate::arith::Arithmetic;
use crate::gemm::{dot, dot_of, row_slice};
use crate::measure::row;
use crate::number::{bit_at, power_adds, power_grows, power_of_two, Real};
use vstd::prelude::*;

verus! {

/// Most hyperplanes.
pub const MAX_PLANES: usize = 16;

/// A number of hyperplanes, brought into the range from one to sixteen.
pub open spec fn clamped_planes(num_planes: int) -> int {
    if num_planes < 1 {
        1
    } else if num_planes > MAX_PLANES {
        MAX_PLANES as int
    } else {
        num_planes
    }
}

/// Brings a number of hyperplanes into range.
pub fn clamp_planes(num_planes: usize) -> (r: usize)
    ensures
        r == clamped_planes(num_planes as int),
        1 <= r <= MAX_PLANES,
{
    if num_planes < 1 {
        1
    } else if num_planes > MAX_PLANES {
        MAX_PLANES
    } else {
        num_planes
    }
}

/// The sketch of a vector: its dot products with the hyperplanes.
pub open spec fn sketch_of<A: Arithmetic>(
    ops: A,
    v: Seq<Real>,
    hyperplanes: Seq<Real>,
    num_planes: nat,
    ndims: int,
) -> Seq<Real> {
    Seq::new(num_planes, |j: int| dot_of(ops, v, row(hyperplanes, ndims, j)))
}

/// Whether bit `j` of the bucket of a candidate is set.
pub open spec fn side<A: Arithmetic>(ops: A, node: Seq<Real>, candidate: Seq<Real>, j: int) -> bool {
    Real::spec_zero().le(ops.difference(candidate[j], node[j]))
}

/// The bucket of a candidate by its first `m` bits.
pub open spec fn bucket_upto<A: Arithmetic>(
    ops: A,
    node: Seq<Real>,
    candidate: Seq<Real>,
    m: nat,
) -> nat
    decreases m,
{
    if m == 0 {
        0
    } else {
        bucket_upto(ops, node, candidate, (m - 1) as nat) + if side(ops, node, candidate, m - 1) {
            power_of_two((m - 1) as nat)
        } else {
            0
        }
    }
}

proof fn bucket_bound<A: Arithmetic>(ops: A, node: Seq<Real>, candidate: Seq<Real>, m: nat)
    ensures
        bucket_upto(ops, node, candidate, m) < power_of_two(m),
    decreases m,
{
    if m > 0 {
        bucket_bound(ops, node, candidate, (m - 1) as nat);
    }
}

/// The bits of a bucket tell, plane by plane, on which side the candidate lies.
pub proof fn bucket_bits<A: Arithmetic>(
    ops: A,
    node: Seq<Real>,
    candidate: Seq<Real>,
    m: nat,
    j: nat,
)
    requires
        j < m,
    ensures
        bit_at(bucket_upto(ops, node, candidate, m), j) <==> side(ops, node, candidate, j as int),
    decreases m,
{
    let top = (m - 1) as nat;
    let low = bucket_upto(ops, node, candidate, top);
    let high = power_of_two(top);
    let unit = power_of_two(j);
    bucket_bound(ops, node, candidate, top);
    power_grows(0, j);
    power_grows(0, top);
    if j == top {
        assert(low as int / high as int == 0) by {
            vstd::arithmetic::div_mod::lemma_basic_div(low as int, high as int);
        }
        assert((low + high) as int / high as int == 1) by (nonlinear_arith)
            requires
                0 <= low < high,
        ;
    } else {
        bucket_bits(ops, node, candidate, top, j);
        let gap = (top - j) as nat;
        let above = power_of_two((gap - 1) as nat);
        power_adds(j, gap);
        assert(power_of_two(gap) == 2 * above);
        assert(high == unit * (2 * above));
        assert((low + high) as int / unit as int == low as int / unit as int + 2 * above) by {
            vstd::arithmetic::div_mod::lemma_hoist_over_denominator(
                low as int,
                (2 * above) as int,
                unit,
            );
            assert(high == (2 * above) * unit) by (nonlinear_arith)
                requires
                    high == unit * (2 * above),
            ;
        }
    }
}

/// Where every number is at least itself, that is where the difference of a number with itself
/// is not negative, a node's own bucket has all bits set.
pub proof fn own_bucket_is_full<A: Arithmetic>(ops: A, sketch: Seq<Real>, m: nat)
    requires
        forall|j: int|
            0 <= j < m ==> Real::spec_zero().le(
                ops.difference(#[trigger] sketch[j], sketch[j]),
            ),
    ensures
        bucket_upto(ops, sketch, sketch, m) == power_of_two(m) - 1,
    decreases m,
{
    if m > 0 {
        own_bucket_is_full(ops, sketch, (m - 1) as nat);
        assert(side(ops, sketch, sketch, m - 1)) by {
            assert(Real::spec_zero().le(ops.difference(sketch[m - 1], sketch[m - 1])));
        }
    }
}

/// Hyperplanes and the sketches of nodes; a sketch is written once.
#[derive(Debug)]
pub struct LshState {
    num_planes: usize,
    ndims: usize,
    l_max: usize,
    hyperplanes: Vec<Real>,
    sketches: Vec<Option<Vec<Real>>>,
}

impl LshState {
    /// Number of hyperplanes.
    pub closed spec fn planes(&self) -> nat {
        self.num_planes as nat
    }

    /// Length of a vector.
    pub closed spec fn dims(&self) -> nat {
        self.ndims as nat
    }

    /// The hyperplanes, one after another.
    pub closed spec fn normals(&self) -> Seq<Real> {
        self.hyperplanes@
    }

    /// Number of nodes that can have a sketch.
    pub closed spec fn capacity(&self) -> nat {
        self.sketches@.len()
    }

    /// Degree budget of a node.
    pub closed spec fn budget(&self) -> nat {
        self.l_max as nat
    }

    /// The sketch of a node, if it has one.
    pub closed spec fn sketch(&self, id: int) -> Option<Seq<Real>> {
        match self.sketches@[id] {
            Some(s) => Some(s@),
            None => None,
        }
    }

    /// The hyperplanes and the sketches have their lengths.
    pub closed spec fn wf(&self) -> bool {
        &&& 1 <= self.num_planes <= MAX_PLANES
        &&& self.hyperplanes@.len() == self.num_planes * self.ndims
        &&& forall|id: int|
            0 <= id < self.sketches@.len() ==> match #[trigger] self.sketches@[id] {
                Some(s) => s@.len() == self.num_planes,
                None => true,
            }
    }

    /// A vector of `len` numbers can become the sketch of node `id`.
    pub open spec fn accepts(&self, id: int, len: int) -> bool {
        0 <= id < self.capacity() && self.sketch(id) is None && len == self.dims()
    }

    /// The sketch that node `id` has once it was given vector `v`: the one it had, or that of the
    /// vector if it had none and the vector has the right length.
    pub open spec fn next_sketch<A: Arithmetic>(&self, ops: A, id: int, v: Seq<Real>) -> Option<
        Seq<Real>,
    > {
        if self.accepts(id, v.len() as int) {
            Some(sketch_of(ops, v, self.normals(), self.planes(), self.dims() as int))
        } else {
            self.sketch(id)
        }
    }

    /// Both nodes exist and have a sketch.
    pub open spec fn both_sketched(&self, p: int, c: int) -> bool {
        &&& 0 <= p < self.capacity()
        &&& 0 <= c < self.capacity()
        &&& self.sketch(p) is Some
        &&& self.sketch(c) is Some
    }

    /// The bucket of candidate `c` seen from node `p`: zero where a sketch is missing.
    pub open spec fn bucket<A: Arithmetic>(&self, ops: A, p: int, c: int) -> nat {
        if 0 <= p < self.capacity() && 0 <= c < self.capacity() {
            match (self.sketch(p), self.sketch(c)) {
                (Some(node), Some(candidate)) => bucket_upto(ops, node, candidate, self.planes()),
                _ => 0,
            }
        } else {
            0
        }
    }

    /// State for up to `capacity` nodes with vectors of length `ndims`, for the given hyperplanes.
    pub fn new(
        num_planes: usize,
        ndims: usize,
        capacity: usize,
        l_max: usize,
        hyperplanes: Vec<Real>,
    ) -> (r: Self)
        requires
            hyperplanes@.len() == clamped_planes(num_planes as int) * ndims,
        ensures
            r.wf(),
            r.planes() == clamped_planes(num_planes as int),
            r.dims() == ndims,
            r.normals() == hyperplanes@,
            r.capacity() == capacity,
            r.budget() == l_max,
            forall|id: int| 0 <= id < capacity ==> #[trigger] r.sketch(id) is None,
    {
        let num_planes: usize = clamp_planes(num_planes);
        let mut sketches: Vec<Option<Vec<Real>>> = Vec::with_capacity(capacity);
        while sketches.len() < capacity
            invariant
                sketches@.len() <= capacity,
                forall|id: int| 0 <= id < sketches@.len() ==> #[trigger] sketches@[id] is None,
            decreases capacity - sketches@.len(),
        {
            sketches.push(None);
        }
        LshState { num_planes, ndims, l_max, hyperplanes, sketches }
    }

    /// Degree budget of a node.
    pub fn l_max(&self) -> (r: usize)
        ensures
            r == self.budget(),
    {
        self.l_max
    }

    /// Computes and stores the sketch of node `id`, unless it has one. A node out of range or a
    /// vector of another length is ignored.
    pub fn set_sketch<A: Arithmetic>(&mut self, ops: &A, id: usize, v: &[Real])
        requires
            ops.ready(),
            old(self).wf(),
        ensures
            final(self).wf(),
            final(self).planes() == old(self).planes(),
            final(self).dims() == old(self).dims(),
            final(self).normals() == old(self).normals(),
            final(self).capacity() == old(self).capacity(),
            final(self).budget() == old(self).budget(),
            forall|i: int|
                0 <= i < old(self).capacity() && i != id ==> (#[trigger] final(self).sketch(i)) == old(
                    self,
                ).sketch(i),
            id < old(self).capacity() ==> final(self).sketch(id as int) == old(self).next_sketch(
                *ops,
                id as int,
                v@,
            ),
            id < old(self).capacity() ==> final(self).sketch(id as int) == (if old(self).sketch(
                id as int,
            ) is Some || v@.len() != old(self).dims() {
                old(self).sketch(id as int)
            } else {
                Some(
                    sketch_of(
                        *ops,
                        v@,
                        old(self).normals(),
                        old(self).planes(),
                        old(self).dims() as int,
                    ),
                )
            }),
            forall|p: int, c: int|
                !old(self).accepts(id as int, v@.len() as int) || (p != id && c != id)
                    ==> #[trigger] final(self).bucket(*ops, p, c) == old(self).bucket(*ops, p, c),
    {
        if id >= self.sketches.len() || v.len() != self.ndims {
            return ;
        }
        if self.sketches[id].is_some() {
            return ;
        }
        let mut s: Vec<Real> = Vec::with_capacity(self.num_planes);
        let mut j: usize = 0;
        while j < self.num_planes
            invariant
                *self == *old(self),
                self.wf(),
                ops.ready(),
                v@.len() == self.ndims,
                j <= self.num_planes,
                s@.len() == j,
                forall|x: int|
                    0 <= x < j ==> #[trigger] s@[x] == dot_of(
                        *ops,
                        v@,
                        row(self.hyperplanes@, self.ndims as int, x),
                    ),
            decreases self.num_planes - j,
        {
            let plane = row_slice(
                self.hyperplanes.as_slice(),
                self.ndims,
                j,
                Ghost(self.num_planes as int),
            );
            s.push(dot(ops, v, plane));
            j += 1;
        }
        proof {
            assert(s@ =~= sketch_of(
                *ops,
                v@,
                self.normals(),
                self.planes(),
                self.dims() as int,
            ));
        }
        self.sketches.set(id, Some(s));
    }

    /// The bucket of candidate `c` seen from node `p`; zero where a sketch is missing.
    pub fn relative_hash<A: Arithmetic>(&self, ops: &A, p: usize, c: usize) -> (h: u16)
        requires
            ops.ready(),
            self.wf(),
        ensures
            h == self.bucket(*ops, p as int, c as int),
    {
        if p >= self.sketches.len() || c >= self.sketches.len() {
            return 0;
        }
        match (&self.sketches[p], &self.sketches[c]) {
            (Some(node), Some(candidate)) => {
                assert(self.sketches@[p as int] is Some);
                assert(self.sketches@[c as int] is Some);
                let mut h: u32 = 0;
                let mut bit: u32 = 1;
                let mut j: usize = 0;
                proof {
                    assert(power_of_two(16) == 0x1_0000) by {
                        reveal_with_fuel(power_of_two, 17);
                    }
                }
                while j < self.num_planes
                    invariant
                        j <= self.num_planes <= MAX_PLANES,
                        ops.ready(),
                        node@.len() == self.num_planes,
                        candidate@.len() == self.num_planes,
                        power_of_two(16) == 0x1_0000,
                        bit == power_of_two(j as nat),
                        h == bucket_upto(*ops, node@, candidate@, j as nat),
                        h < bit,
                    decreases self.num_planes - j,
                {
                    proof {
                        power_grows((j + 1) as nat, 16);
                        bucket_bound(*ops, node@, candidate@, (j + 1) as nat);
                    }
                    let d = ops.minus(candidate[j], node[j]);
                    if Real::zero().is_at_most(d) {
                        h += bit;
                    }
                    bit = bit * 2;
                    j += 1;
                }
                proof {
                    power_grows(self.num_planes as nat, 16);
                }
                h as u16
            },
            _ => 0,
        }
    }
}

/// Computes the sketches of all points of a data set.
pub fn sketch_points<A: Arithmetic>(
    ops: &A,
    data: &[Real],
    npoints: usize,
    ndims: usize,
    num_planes: usize,
    l_max: usize,
    hyperplanes: Vec<Real>,
) -> (lsh: LshState)
    requires
        ops.ready(),
        npoints * ndims <= data@.len(),
        hyperplanes@.len() == clamped_planes(num_planes as int) * ndims,
    ensures
        lsh.wf(),
        lsh.capacity() == npoints,
        lsh.budget() == l_max,
        lsh.planes() == clamped_planes(num_planes as int),
        forall|p: int|
            0 <= p < npoints ==> #[trigger] lsh.sketch(p) == Some(
                sketch_of(
                    *ops,
                    row(data@, ndims as int, p),
                    hyperplanes@,
                    clamped_planes(num_planes as int) as nat,
                    ndims as int,
                ),
            ),
{
    let ghost normals = hyperplanes@;
    let mut lsh = LshState::new(num_planes, ndims, npoints, l_max, hyperplanes);
    let mut p: usize = 0;
    while p < npoints
        invariant
            p <= npoints,
            ops.ready(),
            npoints * ndims <= data@.len(),
            lsh.wf(),
            lsh.capacity() == npoints,
            lsh.budget() == l_max,
            lsh.dims() == ndims,
            lsh.normals() == normals,
            lsh.planes() == clamped_planes(num_planes as int),
            forall|q: int|
                0 <= q < p ==> #[trigger] lsh.sketch(q) == Some(
                    sketch_of(
                        *ops,
                        row(data@, ndims as int, q),
                        normals,
                        clamped_planes(num_planes as int) as nat,
                        ndims as int,
                    ),
                ),
            forall|q: int| p <= q < npoints ==> #[trigger] lsh.sketch(q) is None,
        decreases npoints - p,
    {
        let ghost prior = lsh;
        let v = row_slice(data, ndims, p, Ghost(npoints as int));
        assert(lsh.sketch(p as int) is None);
        lsh.set_sketch(ops, p, v);
        proof {
            assert forall|q: int| 0 <= q < npoints && q != p implies #[trigger] lsh.sketch(q)
                == prior.sketch(q) by {}
        }
        p += 1;
    }
    lsh
}

/// Of two finite numbers, one less the other is not negative in one order at least.
pub open spec fn differences_take_sides<A: Arithmetic>(ops: A) -> bool {
    forall|x: Real, y: Real|
        x.finite() && y.finite() ==> Real::spec_zero().le(#[trigger] ops.difference(x, y))
            || Real::spec_zero().le(ops.difference(y, x))
}

/// A bucket has no bits beyond the planes, and each of its bits tells on which side of a plane the
/// candidate lies. Two nodes with finite sketches, seen from each other, have every bit set in one
/// of the two buckets, and a node seen from itself has all bits set. Where a sketch is missing the
/// bucket is zero.
pub proof fn two_buckets_cover<A: Arithmetic>(lsh: &LshState, ops: A, p: int, c: int)
    requires
        differences_take_sides(ops),
        lsh.both_sketched(p, c) ==> forall|j: int|
            0 <= j < lsh.planes() ==> (#[trigger] lsh.sketch(p)->0[j]).finite() && lsh.sketch(
                c,
            )->0[j].finite(),
    ensures
        lsh.bucket(ops, p, c) < power_of_two(lsh.planes()),
        lsh.both_sketched(p, c) ==> {
            &&& forall|j: nat|
                j < lsh.planes() ==> (#[trigger] bit_at(lsh.bucket(ops, p, c), j) <==> side(
                    ops,
                    lsh.sketch(p)->0,
                    lsh.sketch(c)->0,
                    j as int,
                ))
            &&& forall|j: nat|
                j < lsh.planes() ==> #[trigger] bit_at(lsh.bucket(ops, p, c), j) || bit_at(
                    lsh.bucket(ops, c, p),
                    j,
                )
            &&& p == c ==> lsh.bucket(ops, p, c) == power_of_two(lsh.planes()) - 1
        },
        !lsh.both_sketched(p, c) ==> lsh.bucket(ops, p, c) == 0,
{
    let m = lsh.planes();
    power_grows(0, m);
    if lsh.both_sketched(p, c) {
        let node = lsh.sketch(p)->0;
        let candidate = lsh.sketch(c)->0;
        bucket_bound(ops, node, candidate, m);
        assert forall|j: nat| j < m implies (#[trigger] bit_at(lsh.bucket(ops, p, c), j) <==> side(
            ops,
            node,
            candidate,
            j as int,
        )) && (bit_at(lsh.bucket(ops, p, c), j) || bit_at(lsh.bucket(ops, c, p), j)) by {
            bucket_bits(ops, node, candidate, m, j);
            bucket_bits(ops, candidate, node, m, j);
            let x = node[j as int];
            let y = candidate[j as int];
            assert(Real::spec_zero().le(ops.difference(y, x)) || Real::spec_zero().le(
                ops.difference(x, y),
            ));
        }
        if p == c {
            own_bucket_is_full(ops, node, m);
        }
    }
}

/// A node whose vector was accepted sees itself with all bits set, if its sketch is finite.
pub proof fn accepted_sketch_is_full<A: Arithmetic>(
    before: &LshState,
    after: &LshState,
    ops: A,
    id: int,
    v: Seq<Real>,
)
    requires
        before.accepts(id, v.len() as int),
        after.planes() == before.planes(),
        after.capacity() == before.capacity(),
        after.sketch(id) == Some(
            sketch_of(ops, v, before.normals(), before.planes(), before.dims() as int),
        ),
        differences_take_sides(ops),
        forall|j: int| 0 <= j < after.planes() ==> (#[trigger] after.sketch(id)->0[j]).finite(),
    ensures
        after.bucket(ops, id, id) == power_of_two(after.planes()) - 1,
{
    two_buckets_cover(after, ops, id, id);
}

} // verus!
