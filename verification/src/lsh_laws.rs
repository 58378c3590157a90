//! What the bits of a bucket say of the two vectors.

use crate::arith::Arithmetic;
use crate::exact::{
    all_worth, deepest, exact, exact_difference, order_of_worth, short, stays_short, total, worth,
    zero_worth,
};
use crate::lsh::{bucket_bits, sketch_of, LshState};
use crate::measure::row;
use crate::number::{bit_at, Real};
use crate::sum_laws::{dot_sums_products, products};
use vstd::prelude::*;

verus! {

/// Bit `j` of the bucket of a candidate is set if and only if the candidate's product with plane
/// `j` less the node's is zero or more. It is clear where that difference is below zero, and where
/// it is not a number.
pub proof fn bits_compare_sketches<A: Arithmetic>(lsh: &LshState, ops: A, p: int, c: int, j: nat)
    requires
        lsh.both_sketched(p, c),
        j < lsh.planes(),
    ensures
        ({
            let gap = ops.difference(lsh.sketch(c)->0[j as int], lsh.sketch(p)->0[j as int]);
            let set = bit_at(lsh.bucket(ops, p, c), j);
            &&& set <==> Real::spec_zero().le(gap)
            &&& gap.lt(Real::spec_zero()) ==> !set
            &&& gap.nan() ==> !set
        }),
{
    bucket_bits(ops, lsh.sketch(p)->0, lsh.sketch(c)->0, lsh.planes(), j);
}

/// Of two nodes from which a candidate lies on strictly opposite sides along plane `j`, exactly
/// one sees bit `j` set, and it is the one below the candidate.
pub proof fn opposite_nodes_disagree<A: Arithmetic>(
    lsh: &LshState,
    ops: A,
    p: int,
    q: int,
    c: int,
    j: nat,
)
    requires
        lsh.both_sketched(p, c),
        lsh.both_sketched(q, c),
        j < lsh.planes(),
        ops.difference(lsh.sketch(c)->0[j as int], lsh.sketch(p)->0[j as int]).lt(
            Real::spec_zero(),
        ),
        Real::spec_zero().lt(
            ops.difference(lsh.sketch(c)->0[j as int], lsh.sketch(q)->0[j as int]),
        ),
    ensures
        !bit_at(lsh.bucket(ops, p, c), j),
        bit_at(lsh.bucket(ops, q, c), j),
{
    bits_compare_sketches(lsh, ops, p, c, j);
    bits_compare_sketches(lsh, ops, q, c, j);
}

/// A bit depends on the two products with its own plane alone: where these are the same in
/// another state, seen by other nodes, the bit is the same.
pub proof fn bit_depends_on_own_plane<A: Arithmetic>(
    lsh: &LshState,
    other: &LshState,
    ops: A,
    p: int,
    c: int,
    u: int,
    v: int,
    j: nat,
    i: nat,
)
    requires
        lsh.both_sketched(p, c),
        other.both_sketched(u, v),
        j < lsh.planes(),
        i < other.planes(),
        lsh.sketch(p)->0[j as int] == other.sketch(u)->0[i as int],
        lsh.sketch(c)->0[j as int] == other.sketch(v)->0[i as int],
    ensures
        bit_at(lsh.bucket(ops, p, c), j) <==> bit_at(other.bucket(ops, u, v), i),
{
    bits_compare_sketches(lsh, ops, p, c, j);
    bits_compare_sketches(other, ops, u, v, i);
}

/// In an exact arithmetic a bit compares what the two products are worth.
pub proof fn bits_compare_worth<A: Arithmetic>(
    lsh: &LshState,
    ops: A,
    p: int,
    c: int,
    j: nat,
    k: int,
    l: int,
    s: nat,
)
    requires
        exact(ops),
        lsh.both_sketched(p, c),
        j < lsh.planes(),
        worth(lsh.sketch(p)->0[j as int], k, s),
        worth(lsh.sketch(c)->0[j as int], l, s),
        short(l - k),
        s <= deepest(),
    ensures
        bit_at(lsh.bucket(ops, p, c), j) <==> k <= l,
{
    bits_compare_sketches(lsh, ops, p, c, j);
    let x = lsh.sketch(p)->0[j as int];
    let y = lsh.sketch(c)->0[j as int];
    exact_difference(ops, y, x, l, k, s);
    zero_worth(s);
    order_of_worth(Real::spec_zero(), ops.difference(y, x), 0, l - k, s);
}

/// In an exact arithmetic component `j` of a sketch is the sum of the products of the vector's
/// components with those of plane `j`.
pub proof fn sketch_sums_products<A: Arithmetic>(
    ops: A,
    v: Seq<Real>,
    hyperplanes: Seq<Real>,
    num_planes: nat,
    j: int,
    ks: Seq<int>,
    ls: Seq<int>,
    s: nat,
    t: nat,
)
    requires
        exact(ops),
        0 <= j < num_planes,
        hyperplanes.len() == num_planes * v.len(),
        all_worth(v, ks, s),
        ls.len() == v.len(),
        forall|d: int|
            0 <= d < v.len() ==> worth(hyperplanes[j * v.len() + d], #[trigger] ls[d], t),
        s + t <= deepest(),
        stays_short(products(ks, ls)),
    ensures
        sketch_of(ops, v, hyperplanes, num_planes, v.len() as int).len() == num_planes,
        worth(
            sketch_of(ops, v, hyperplanes, num_planes, v.len() as int)[j],
            total(products(ks, ls)),
            s + t,
        ),
{
    let n = v.len() as int;
    let plane = row(hyperplanes, n, j);
    assert(0 <= j * n && (j + 1) * n <= hyperplanes.len() && (j + 1) * n - j * n == n)
        by (nonlinear_arith)
        requires
            0 <= j < num_planes,
            hyperplanes.len() == num_planes * n,
            0 <= n,
    ;
    assert forall|d: int| 0 <= d < plane.len() implies worth(#[trigger] plane[d], ls[d], t) by {
        assert(plane[d] == hyperplanes[j * n + d]);
    }
    dot_sums_products(ops, v, plane, ks, ls, s, t);
}

/// A node keeps its sketch once it has one, and a vector of another length changes nothing.
/// Otherwise the new sketch has a component for every plane.
pub proof fn sketches_are_written_once<A: Arithmetic>(
    lsh: &LshState,
    ops: A,
    id: int,
    v: Seq<Real>,
)
    requires
        0 <= id < lsh.capacity(),
    ensures
        lsh.sketch(id) is Some ==> lsh.next_sketch(ops, id, v) == lsh.sketch(id),
        v.len() != lsh.dims() ==> lsh.next_sketch(ops, id, v) == lsh.sketch(id),
        lsh.sketch(id) is None && v.len() == lsh.dims() ==> lsh.next_sketch(ops, id, v) is Some
            && lsh.next_sketch(ops, id, v)->0.len() == lsh.planes(),
{
}

/// In an exact arithmetic, bit `j` of the bucket of one vector seen from another is set if and only
/// if its product with plane `j` is at least the other's.
pub proof fn planes_part_vectors<A: Arithmetic>(
    lsh: &LshState,
    ops: A,
    p: int,
    c: int,
    x: Seq<Real>,
    y: Seq<Real>,
    hyperplanes: Seq<Real>,
    j: nat,
    ks: Seq<int>,
    ls: Seq<int>,
    hs: Seq<int>,
    s: nat,
    t: nat,
)
    requires
        exact(ops),
        lsh.both_sketched(p, c),
        j < lsh.planes(),
        x.len() == y.len(),
        lsh.sketch(p) == Some(sketch_of(ops, x, hyperplanes, lsh.planes(), x.len() as int)),
        lsh.sketch(c) == Some(sketch_of(ops, y, hyperplanes, lsh.planes(), y.len() as int)),
        hyperplanes.len() == lsh.planes() * x.len(),
        all_worth(x, ks, s),
        all_worth(y, ls, s),
        hs.len() == x.len(),
        forall|d: int|
            0 <= d < x.len() ==> worth(hyperplanes[j * x.len() + d], #[trigger] hs[d], t),
        s + t <= deepest(),
        stays_short(products(ks, hs)),
        stays_short(products(ls, hs)),
        short(total(products(ls, hs)) - total(products(ks, hs))),
    ensures
        bit_at(lsh.bucket(ops, p, c), j) <==> total(products(ks, hs)) <= total(products(ls, hs)),
{
    sketch_sums_products(ops, x, hyperplanes, lsh.planes(), j as int, ks, hs, s, t);
    sketch_sums_products(ops, y, hyperplanes, lsh.planes(), j as int, ls, hs, s, t);
    bits_compare_worth(
        lsh,
        ops,
        p,
        c,
        j,
        total(products(ks, hs)),
        total(products(ls, hs)),
        s + t,
    );
}

} // verus!
