//! Optimal scalar quantizers of the standard normal distribution.
//!
//! A table holds the reconstruction values (centroids) and the decision boundaries between them.
//! Tables for one to four bits are fixed; tables for other widths are computed elsewhere and
//! handed in.

use crate::arith::Arithmetic;
use crate::number::Real;
use vstd::prelude::*;

verus! {

/// Encodings of the centroids for 1 bit.
pub open spec fn centroids_1() -> Seq<u32> {
    seq![
        0xbf4c_422au32, 0x3f4c_422a,
    ]
}

/// Encodings of the boundaries for 1 bit.
pub open spec fn boundaries_1() -> Seq<u32> {
    seq![
        0x0000_0000u32,
    ]
}

/// Encodings of the centroids for 2 bits.
pub open spec fn centroids_2() -> Seq<u32> {
    seq![
        0xbfc1_555du32, 0xbee7_d2c9, 0x3ee7_d2c9, 0x3fc1_555d,
    ]
}

/// Encodings of the boundaries for 2 bits.
pub open spec fn boundaries_2() -> Seq<u32> {
    seq![
        0xbf7b_4a0fu32, 0x0000_0000, 0x3f7b_4a0f,
    ]
}

/// Encodings of the centroids for 3 bits.
pub open spec fn centroids_3() -> Seq<u32> {
    seq![
        0xc009_b97au32, 0xbfac_0538, 0xbf41_8990, 0xbe7a_f9f8,
        0x3e7a_f9f8, 0x3f41_8990, 0x3fac_0538, 0x4009_b97a,
    ]
}

/// Encodings of the boundaries for 3 bits.
pub open spec fn boundaries_3() -> Seq<u32> {
    seq![
        0xbfdf_bc17u32, 0xbf86_6500, 0xbf00_2407, 0x0000_0000,
        0x3f00_2407, 0x3f86_6500, 0x3fdf_bc17,
    ]
}

/// Encodings of the centroids for 4 bits.
pub open spec fn centroids_4() -> Seq<u32> {
    seq![
        0xc02e_e2bfu32, 0xc004_6ac7, 0xbfcf_1c25, 0xbfa0_cc2f,
        0xbf71_3d39, 0xbf28_215e, 0xbec6_ae44, 0xbe03_79fd,
        0x3e03_79fd, 0x3ec6_ae44, 0x3f28_215e, 0x3f71_3d39,
        0x3fa0_cc2f, 0x3fcf_1c25, 0x4004_6ac7, 0x402e_e2bf,
    ]
}

/// Encodings of the boundaries for 4 bits.
pub open spec fn boundaries_4() -> Seq<u32> {
    seq![
        0xc019_a6c3u32, 0xbfeb_f8da, 0xbfb7_f42a, 0xbf8c_b566,
        0xbf4c_af4b, 0xbf05_bc40, 0xbe84_35a1, 0x0000_0000,
        0x3e84_35a1, 0x3f05_bc40, 0x3f4c_af4b, 0x3f8c_b566,
        0x3fb7_f42a, 0x3feb_f8da, 0x4019_a6c3,
    ]
}

/// Numbers from their encodings.
pub open spec fn decoded(bits: Seq<u32>) -> Seq<Real> {
    bits.map_values(|x: u32| Real { bits: x })
}

fn decode(bits: &Vec<u32>) -> (out: Vec<Real>)
    ensures
        out@ == decoded(bits@),
{
    let mut out: Vec<Real> = Vec::with_capacity(bits.len());
    let mut i: usize = 0;
    while i < bits.len()
        invariant
            i <= bits@.len(),
            out@.len() == i,
            forall|j: int| 0 <= j < i ==> #[trigger] out@[j] == (Real { bits: bits@[j] }),
        decreases bits@.len() - i,
    {
        out.push(Real::from_bits(bits[i]));
        i += 1;
    }
    assert(out@ =~= decoded(bits@));
    out
}

/// Whether a list of numbers ascends strictly.
pub open spec fn ascends(list: Seq<Real>) -> bool {
    forall|i: int| 0 <= i < list.len() - 1 ==> (#[trigger] list[i]).lt(list[i + 1])
}

/// Whether a list of numbers is its own mirror image about zero.
pub open spec fn mirrored(list: Seq<Real>) -> bool {
    forall|i: int|
        0 <= i < list.len() ==> (#[trigger] list[i]).rank() == list[list.len() - 1 - i].negation().rank()
}

/// The fixed centroids for a width from one to four bits.
pub open spec fn fixed_centroids(nbits: usize) -> Seq<Real> {
    decoded(
        if nbits == 1 {
            centroids_1()
        } else if nbits == 2 {
            centroids_2()
        } else if nbits == 3 {
            centroids_3()
        } else {
            centroids_4()
        },
    )
}

/// The fixed boundaries for a width from one to four bits.
pub open spec fn fixed_boundaries(nbits: usize) -> Seq<Real> {
    decoded(
        if nbits == 1 {
            boundaries_1()
        } else if nbits == 2 {
            boundaries_2()
        } else if nbits == 3 {
            boundaries_3()
        } else {
            boundaries_4()
        },
    )
}

/// The fixed tables ascend, mirror themselves about zero, and have a centroid for every code and
/// a boundary between any two neighbours, which lies between them.
pub proof fn fixed_tables_law(nbits: usize)
    requires
        1 <= nbits <= 4,
    ensures
        fixed_centroids(nbits).len() == if nbits == 1 {
            2nat
        } else if nbits == 2 {
            4nat
        } else if nbits == 3 {
            8nat
        } else {
            16nat
        },
        fixed_boundaries(nbits).len() == fixed_centroids(nbits).len() - 1,
        ascends(fixed_centroids(nbits)),
        ascends(fixed_boundaries(nbits)),
        mirrored(fixed_centroids(nbits)),
        mirrored(fixed_boundaries(nbits)),
        forall|i: int|
            0 <= i < fixed_boundaries(nbits).len() ==> {
                &&& fixed_centroids(nbits)[i].lt(#[trigger] fixed_boundaries(nbits)[i])
                &&& fixed_boundaries(nbits)[i].lt(fixed_centroids(nbits)[i + 1])
            },
{
}

/// How many boundaries from the `i`-th on lie below a value, as long as they do.
pub open spec fn passed(boundaries: Seq<Real>, value: Real, i: int) -> nat
    decreases boundaries.len() - i,
{
    if i < boundaries.len() && boundaries[i].lt(value) {
        1 + passed(boundaries, value, i + 1)
    } else {
        0
    }
}

/// The code of a value separates the boundaries: those before it lie below the value, the one
/// after it does not.
pub proof fn code_separates(boundaries: Seq<Real>, value: Real, i: int)
    requires
        0 <= i <= boundaries.len(),
    ensures
        i + passed(boundaries, value, i) <= boundaries.len(),
        forall|j: int|
            i <= j < i + passed(boundaries, value, i) ==> (#[trigger] boundaries[j]).lt(value),
        i + passed(boundaries, value, i) < boundaries.len() ==> !boundaries[i + passed(
            boundaries,
            value,
            i,
        )].lt(value),
    decreases boundaries.len() - i,
{
    if i < boundaries.len() && boundaries[i].lt(value) {
        code_separates(boundaries, value, i + 1);
        assert forall|j: int| i <= j < i + passed(boundaries, value, i) implies (
        #[trigger] boundaries[j]).lt(value) by {}
    }
}

/// A larger value never gets a smaller code.
pub proof fn codes_keep_order(boundaries: Seq<Real>, low: Real, high: Real, i: int)
    requires
        0 <= i <= boundaries.len(),
        low.le(high),
    ensures
        passed(boundaries, low, i) <= passed(boundaries, high, i),
    decreases boundaries.len() - i,
{
    if i < boundaries.len() && boundaries[i].lt(low) {
        codes_keep_order(boundaries, low, high, i + 1);
    }
}

/// Centroids and boundaries of a scalar quantizer.
#[derive(Debug)]
pub struct LloydMaxCentroids {
    centroids: Vec<Real>,
    boundaries: Vec<Real>,
    nbits: usize,
}

impl LloydMaxCentroids {
    /// Reconstruction values by code.
    pub closed spec fn values(&self) -> Seq<Real> {
        self.centroids@
    }

    /// Decision boundaries.
    pub closed spec fn bounds(&self) -> Seq<Real> {
        self.boundaries@
    }

    /// Bits per code.
    pub closed spec fn width(&self) -> nat {
        self.nbits as nat
    }

    /// There is a boundary between any two neighbouring values, and codes fit into a byte.
    pub open spec fn wf(&self) -> bool {
        &&& self.values().len() == self.bounds().len() + 1
        &&& self.values().len() <= 256
    }

    /// The fixed table for one to four bits; there is none for other widths.
    pub fn new(nbits: usize) -> (r: Option<Self>)
        ensures
            r is Some <==> 1 <= nbits <= 4,
            r matches Some(t) ==> {
                &&& t.wf()
                &&& t.values() == fixed_centroids(nbits)
                &&& t.bounds() == fixed_boundaries(nbits)
                &&& t.width() == nbits
            },
    {
        proof {
            if 1 <= nbits <= 4 {
                fixed_tables_law(nbits);
            }
        }
        let (centroids, boundaries) = if nbits == 1 {
            precomputed_1bit()
        } else if nbits == 2 {
            precomputed_2bit()
        } else if nbits == 3 {
            precomputed_3bit()
        } else if nbits == 4 {
            precomputed_4bit()
        } else {
            return None;
        };
        Some(LloydMaxCentroids { centroids, boundaries, nbits })
    }

    /// A table that was computed elsewhere, if its parts go together.
    pub fn from_tables(centroids: Vec<Real>, boundaries: Vec<Real>, nbits: usize) -> (r: Option<
        Self,
    >)
        ensures
            r is Some <==> centroids@.len() == boundaries@.len() + 1 && centroids@.len() <= 256,
            r matches Some(t) ==> {
                &&& t.wf()
                &&& t.values() == centroids@
                &&& t.bounds() == boundaries@
                &&& t.width() == nbits
            },
    {
        if centroids.len() >= 1 && centroids.len() <= 256 && centroids.len() - 1
            == boundaries.len() {
            Some(LloydMaxCentroids { centroids, boundaries, nbits })
        } else {
            None
        }
    }

    /// Bits per code.
    pub fn nbits(&self) -> (r: usize)
        ensures
            r == self.width(),
    {
        self.nbits
    }

    /// Number of codes.
    pub fn num_levels(&self) -> (r: usize)
        ensures
            r == self.values().len(),
    {
        self.centroids.len()
    }

    /// Reconstruction values by code.
    pub fn centroids(&self) -> (r: &[Real])
        ensures
            r@ == self.values(),
    {
        self.centroids.as_slice()
    }

    /// Decision boundaries.
    pub fn boundaries(&self) -> (r: &[Real])
        ensures
            r@ == self.bounds(),
    {
        self.boundaries.as_slice()
    }

    /// The code of a value.
    pub open spec fn code_of(&self, value: Real) -> u8 {
        passed(self.bounds(), value, 0) as u8
    }

    /// Finds the code of a value.
    pub fn quantize(&self, value: Real) -> (code: u8)
        requires
            self.wf(),
        ensures
            code == self.code_of(value),
            code < self.values().len(),
            code == passed(self.bounds(), value, 0),
    {
        let mut code: u8 = 0;
        let mut i: usize = 0;
        proof {
            code_separates(self.bounds(), value, 0);
        }
        while i < self.boundaries.len() && self.boundaries[i].is_less(value)
            invariant
                i <= self.boundaries@.len(),
                self.wf(),
                code == i,
                i + passed(self.bounds(), value, i as int) == passed(self.bounds(), value, 0),
                passed(self.bounds(), value, 0) <= self.bounds().len(),
            decreases self.boundaries@.len() - i,
        {
            code += 1;
            i += 1;
        }
        code
    }

    /// The reconstruction value of a code.
    pub fn centroid(&self, code: u8) -> (r: Real)
        requires
            code < self.values().len(),
        ensures
            r == self.values()[code as int],
    {
        self.centroids[code as usize]
    }

    /// The reconstruction value of a code, scaled.
    pub fn centroid_scaled<A: Arithmetic>(&self, ops: &A, code: u8, inv_sqrt_d: Real) -> (r: Real)
        requires
            ops.ready(),
            code < self.values().len(),
        ensures
            r == ops.product(self.values()[code as int], inv_sqrt_d),
    {
        ops.times(self.centroids[code as usize], inv_sqrt_d)
    }
}

/// The table for 1 bit.
fn precomputed_1bit() -> (r: (Vec<Real>, Vec<Real>))
    ensures
        r.0@ == decoded(centroids_1()),
        r.1@ == decoded(boundaries_1()),
{
    let c = vec![
        0xbf4c_422au32, 0x3f4c_422a,
    ];
    let b = vec![
        0x0000_0000u32,
    ];
    assert(c@ =~= centroids_1());
    assert(b@ =~= boundaries_1());
    (decode(&c), decode(&b))
}

/// The table for 2 bits.
fn precomputed_2bit() -> (r: (Vec<Real>, Vec<Real>))
    ensures
        r.0@ == decoded(centroids_2()),
        r.1@ == decoded(boundaries_2()),
{
    let c = vec![
        0xbfc1_555du32, 0xbee7_d2c9, 0x3ee7_d2c9, 0x3fc1_555d,
    ];
    let b = vec![
        0xbf7b_4a0fu32, 0x0000_0000, 0x3f7b_4a0f,
    ];
    assert(c@ =~= centroids_2());
    assert(b@ =~= boundaries_2());
    (decode(&c), decode(&b))
}

/// The table for 3 bits.
fn precomputed_3bit() -> (r: (Vec<Real>, Vec<Real>))
    ensures
        r.0@ == decoded(centroids_3()),
        r.1@ == decoded(boundaries_3()),
{
    let c = vec![
        0xc009_b97au32, 0xbfac_0538, 0xbf41_8990, 0xbe7a_f9f8,
        0x3e7a_f9f8, 0x3f41_8990, 0x3fac_0538, 0x4009_b97a,
    ];
    let b = vec![
        0xbfdf_bc17u32, 0xbf86_6500, 0xbf00_2407, 0x0000_0000,
        0x3f00_2407, 0x3f86_6500, 0x3fdf_bc17,
    ];
    assert(c@ =~= centroids_3());
    assert(b@ =~= boundaries_3());
    (decode(&c), decode(&b))
}

/// The table for 4 bits.
fn precomputed_4bit() -> (r: (Vec<Real>, Vec<Real>))
    ensures
        r.0@ == decoded(centroids_4()),
        r.1@ == decoded(boundaries_4()),
{
    let c = vec![
        0xc02e_e2bfu32, 0xc004_6ac7, 0xbfcf_1c25, 0xbfa0_cc2f,
        0xbf71_3d39, 0xbf28_215e, 0xbec6_ae44, 0xbe03_79fd,
        0x3e03_79fd, 0x3ec6_ae44, 0x3f28_215e, 0x3f71_3d39,
        0x3fa0_cc2f, 0x3fcf_1c25, 0x4004_6ac7, 0x402e_e2bf,
    ];
    let b = vec![
        0xc019_a6c3u32, 0xbfeb_f8da, 0xbfb7_f42a, 0xbf8c_b566,
        0xbf4c_af4b, 0xbf05_bc40, 0xbe84_35a1, 0x0000_0000,
        0x3e84_35a1, 0x3f05_bc40, 0x3f4c_af4b, 0x3f8c_b566,
        0x3fb7_f42a, 0x3feb_f8da, 0x4019_a6c3,
    ];
    assert(c@ =~= centroids_4());
    assert(b@ =~= boundaries_4());
    (decode(&c), decode(&b))
}

} // verus!
