//! Compression of a data set for search on disk.
//!
//! A compressed vector is its codes, packed without a gap, followed by two numbers.

use crate::arith::Arithmetic;
use crate::gemm::row_slice;
use crate::graph::{le4, push4};
use crate::measure::{row, row_bounds, rows_apart};
use crate::number::{bit_at, power_grows, power_of_two, Real};
use crate::quantize::{bits_fit, bits_read_back, bits_value};
use crate::quantizer::{codes_valid, rotated, TurboQuantQuantizer};
use crate::tq_codes::{
    byte_from, codes_per_byte, levels, packable, packed_codes, packed_codes_fit,
};
use crate::tq_store::{meta_of_rotated, record_of_rotated};
use vstd::prelude::*;

verus! {

/// Bytes that `dim` codes of `nbits` bits take when no bit is wasted.
pub open spec fn dense_bytes(dim: int, nbits: int) -> int {
    (nbits * dim + 7) / 8
}

/// Bit `b` of codes of `nbits` bits that follow each other without a gap, the lowest bit of each
/// first; past the last code no bit is set.
pub open spec fn stream_bit(codes: Seq<u8>, nbits: usize, b: int) -> bool {
    &&& nbits > 0
    &&& b / (nbits as int) < codes.len()
    &&& bit_at(codes[b / (nbits as int)] as nat, (b % (nbits as int)) as nat)
}

/// The bits of byte `n` of packed codes.
pub open spec fn dense_byte(codes: Seq<u8>, nbits: usize, n: int) -> Seq<bool> {
    Seq::new(8, |t: int| stream_bit(codes, nbits, 8 * n + t))
}

/// The codes of a vector as they stand on disk.
pub open spec fn disk_codes(codes: Seq<u8>, nbits: usize) -> Seq<u8> {
    Seq::new(
        dense_bytes(codes.len() as int, nbits as int) as nat,
        |n: int| bits_value(dense_byte(codes, nbits, n)) as u8,
    )
}

/// The code at position `i` of packed codes.
pub open spec fn disk_code_at(packed: Seq<u8>, nbits: usize, i: int) -> nat {
    bits_value(
        Seq::new(
            nbits as nat,
            |t: int| bit_at(packed[(i * nbits + t) / 8] as nat, ((i * nbits + t) % 8) as nat),
        ),
    )
}

/// Every code fits into its width.
pub open spec fn codes_fit(codes: Seq<u8>, nbits: usize) -> bool {
    forall|i: int| 0 <= i < codes.len() ==> (#[trigger] codes[i]) < power_of_two(nbits as nat)
}

proof fn byte_limit()
    ensures
        power_of_two(8) == 256,
{
    reveal_with_fuel(power_of_two, 9);
}

/// The lowest `n` bits of a number.
spec fn low_bits(x: nat, n: nat) -> Seq<bool> {
    Seq::new(n, |t: int| bit_at(x, t as nat))
}

/// The lowest bits of a number stand for its remainder.
proof fn low_bits_value(x: nat, n: nat)
    ensures
        bits_value(low_bits(x, n)) == x % power_of_two(n),
    decreases n,
{
    let bits = low_bits(x, n);
    if n == 0 {
        assert(power_of_two(0) == 1);
        assert(x % 1 == 0) by (nonlinear_arith);
    } else {
        let m = (n - 1) as nat;
        let p = power_of_two(m);
        power_grows(0, m);
        assert forall|t: int| 0 <= t < m implies bits.drop_first()[t] == low_bits(x / 2, m)[t] by {
            let q = power_of_two(t as nat);
            power_grows(0, t as nat);
            assert(power_of_two((t + 1) as nat) == 2 * q);
            vstd::arithmetic::div_mod::lemma_div_denominator(x as int, 2, q as int);
        }
        assert(bits.drop_first() =~= low_bits(x / 2, m));
        low_bits_value(x / 2, m);
        assert(power_of_two(0) == 1);
        assert(x / 1 == x) by (nonlinear_arith);
        assert(bits[0] == (x % 2 == 1));
        assert(x % (2 * p) == x % 2 + 2 * ((x / 2) % p)) by {
            vstd::arithmetic::div_mod::lemma_mod_breakdown(x as int, 2, p as int);
        }
    }
}

/// Every code can be read back from the packed codes.
pub proof fn disk_codes_read_back(codes: Seq<u8>, nbits: usize, i: int)
    requires
        codes_fit(codes, nbits),
        0 <= i < codes.len(),
    ensures
        disk_code_at(disk_codes(codes, nbits), nbits, i) == codes[i],
{
    let packed = disk_codes(codes, nbits);
    let read = Seq::new(
        nbits as nat,
        |t: int| bit_at(packed[(i * nbits + t) / 8] as nat, ((i * nbits + t) % 8) as nat),
    );
    let own = low_bits(codes[i] as nat, nbits as nat);
    let n = codes.len() as int;
    let w = nbits as int;
    assert forall|t: int| 0 <= t < nbits implies read[t] == own[t] by {
        let b = i * w + t;
        assert(0 <= b < w * n) by (nonlinear_arith)
            requires
                0 <= i < n,
                0 <= t < w,
                b == i * w + t,
        ;
        vstd::arithmetic::div_mod::lemma_fundamental_div_mod_converse(b, w, i, t);
        assert(stream_bit(codes, nbits, b) == own[t]);
        let k = b / 8;
        let bits = dense_byte(codes, nbits, k);
        assert(0 <= k < packed.len());
        bits_fit(bits);
        byte_limit();
        bits_read_back(bits, b % 8);
        assert(bits[b % 8] == stream_bit(codes, nbits, 8 * k + b % 8));
        assert(packed[k] as nat == bits_value(bits));
    }
    assert(read =~= own);
    low_bits_value(codes[i] as nat, nbits as nat);
    vstd::arithmetic::div_mod::lemma_small_mod(codes[i] as nat, power_of_two(nbits as nat));
}

proof fn bits_join(a: Seq<bool>, b: Seq<bool>)
    ensures
        bits_value(a + b) == bits_value(a) + power_of_two(a.len()) * bits_value(b),
    decreases a.len(),
{
    if a.len() == 0 {
        assert(a + b =~= b);
        assert(power_of_two(0) == 1);
        assert(1 * bits_value(b) == bits_value(b)) by (nonlinear_arith);
    } else {
        bits_join(a.drop_first(), b);
        assert((a + b).drop_first() =~= a.drop_first() + b);
        assert((a + b)[0] == a[0]);
        let p = power_of_two((a.len() - 1) as nat);
        let v = bits_value(b);
        assert(power_of_two(a.len()) == 2 * p);
        assert((2 * p) * v == 2 * (p * v)) by (nonlinear_arith);
    }
}

proof fn no_bits(bits: Seq<bool>)
    requires
        forall|t: int| 0 <= t < bits.len() ==> !(#[trigger] bits[t]),
    ensures
        bits_value(bits) == 0,
    decreases bits.len(),
{
    if bits.len() > 0 {
        no_bits(bits.drop_first());
    }
}

/// The bits of a packed byte from code `t` of the byte on are those of that code and the rest.
proof fn byte_agrees(codes: Seq<u8>, nbits: usize, n: int, t: nat)
    requires
        packable(nbits),
        0 <= n,
        t <= codes_per_byte(nbits),
    ensures
        bits_value(dense_byte(codes, nbits, n).skip(t * nbits)) == byte_from(codes, nbits, n, t),
    decreases codes_per_byte(nbits) - t,
{
    let per = codes_per_byte(nbits) as int;
    let w = nbits as int;
    let bits = dense_byte(codes, nbits, n);
    assert(per * w == 8);
    assert(levels(nbits) == power_of_two(nbits as nat)) by {
        reveal_with_fuel(power_of_two, 9);
    }
    let at = t * w;
    let rest = bits.skip(at);
    if t == per {
        assert(rest =~= Seq::<bool>::empty());
    } else {
        assert(at + w <= 8) by (nonlinear_arith)
            requires
                0 <= t,
                t + 1 <= per,
                per * w == 8,
                0 < w,
                at == t * w,
        ;
        byte_agrees(codes, nbits, n, t + 1);
        let i = n * per + t;
        let first = rest.take(w);
        assert((t + 1) * w == at + w) by (nonlinear_arith)
            requires
                at == t * w,
        ;
        assert(rest =~= first + bits.skip(at + w));
        bits_join(first, bits.skip(at + w));
        assert forall|s: int| 0 <= s < w implies #[trigger] first[s] == (i < codes.len() && bit_at(
            codes[i] as nat,
            s as nat,
        )) by {
            let b = 8 * n + at + s;
            assert(b == i * w + s) by (nonlinear_arith)
                requires
                    b == 8 * n + at + s,
                    at == t * w,
                    i == n * per + t,
                    per * w == 8,
            ;
            vstd::arithmetic::div_mod::lemma_fundamental_div_mod_converse(b, w, i, s);
            assert(first[s] == bits[at + s]);
        }
        if i < codes.len() {
            assert(first =~= low_bits(codes[i] as nat, nbits as nat));
            low_bits_value(codes[i] as nat, nbits as nat);
        } else {
            no_bits(first);
        }
    }
}

/// Where the width divides a byte, codes are packed as in a store.
pub proof fn disk_codes_as_stored(codes: Seq<u8>, nbits: usize)
    requires
        packable(nbits),
    ensures
        disk_codes(codes, nbits) == packed_codes(codes, nbits),
{
    let n = codes.len() as int;
    packed_codes_fit(n, nbits);
    assert(nbits * n == n * nbits) by (nonlinear_arith);
    assert forall|b: int| 0 <= b < disk_codes(codes, nbits).len() implies disk_codes(codes, nbits)[b]
        == packed_codes(codes, nbits)[b] by {
        byte_agrees(codes, nbits, b, 0);
        assert(0 * nbits == 0);
        assert(dense_byte(codes, nbits, b).skip(0) =~= dense_byte(codes, nbits, b));
    }
    assert(disk_codes(codes, nbits) =~= packed_codes(codes, nbits));
}

/// Bit `t` of a code.
fn code_bit(code: u8, t: usize) -> (r: bool)
    ensures
        r == bit_at(code as nat, t as nat),
{
    let mut left: u8 = code;
    let mut s: usize = 0;
    proof {
        assert(power_of_two(0) == 1);
        assert(code as nat / 1 == code) by (nonlinear_arith);
    }
    while s < t
        invariant
            s <= t,
            left as nat == code as nat / power_of_two(s as nat),
        decreases t - s,
    {
        proof {
            let p = power_of_two(s as nat);
            power_grows(0, s as nat);
            vstd::arithmetic::div_mod::lemma_div_denominator(code as int, p as int, 2);
            assert(p * 2 == power_of_two((s + 1) as nat));
        }
        left = left / 2;
        s += 1;
    }
    left % 2 == 1
}

/// The record of the vector `v`, which was rotated to `y`, on disk: its packed codes and two
/// numbers.
pub open spec fn disk_record_of_rotated<A: Arithmetic>(
    ops: A,
    q: TurboQuantQuantizer,
    v: Seq<Real>,
    y: Seq<Real>,
) -> Seq<u8> {
    let meta = meta_of_rotated(ops, q, v, y);
    disk_codes(q.codes_of_rotated(ops, meta.norm, y), q.table().width() as usize) + le4(
        meta.norm.bits,
    ) + le4(meta.quant_norm_sq.bits)
}

/// The record of the vector `v`, which is rotated by the matrix, on disk.
pub open spec fn disk_record_of<A: Arithmetic>(
    ops: A,
    q: TurboQuantQuantizer,
    v: Seq<Real>,
) -> Seq<u8> {
    disk_record_of_rotated(ops, q, v, rotated(ops, q.matrix(), q.dims() as int, v))
}

/// Where the width divides a byte, a vector has the same record on disk as in a store.
pub proof fn disk_record_as_stored<A: Arithmetic>(
    ops: A,
    q: TurboQuantQuantizer,
    v: Seq<Real>,
    y: Seq<Real>,
)
    requires
        packable(q.table().width() as usize),
    ensures
        disk_record_of_rotated(ops, q, v, y) == record_of_rotated(ops, q, v, y),
{
    let norm = meta_of_rotated(ops, q, v, y).norm;
    disk_codes_as_stored(q.codes_of_rotated(ops, norm, y), q.table().width() as usize);
}

/// What a compressor is made with.
#[derive(Debug)]
pub struct TQGenerationContext {
    pub quantizer: TurboQuantQuantizer,
}

/// Compresses vectors with a quantizer.
#[derive(Debug)]
pub struct TQGeneration {
    quantizer: TurboQuantQuantizer,
    compressed_bytes: usize,
}

impl TQGeneration {
    /// The quantizer in use.
    pub closed spec fn codec(&self) -> TurboQuantQuantizer {
        self.quantizer
    }

    /// Bytes per compressed vector.
    pub closed spec fn size(&self) -> nat {
        self.compressed_bytes as nat
    }

    /// The size is that of the codes and two numbers.
    pub open spec fn wf(&self) -> bool {
        let dim = self.codec().dims() as int;
        let nbits = self.codec().table().width() as int;
        &&& self.codec().wf()
        &&& self.size() == dense_bytes(dim, nbits) + 8
        &&& nbits * dim + 7 <= usize::MAX
        &&& nbits <= usize::MAX
    }

    /// The table has no more codes than its width allows.
    pub open spec fn codes_in_width(&self) -> bool {
        self.codec().table().values().len() <= power_of_two(self.codec().table().width())
    }

    /// Bytes that the codes of a vector take.
    pub fn packed_code_bytes(dim: usize, nbits: usize) -> (r: usize)
        requires
            nbits * dim + 7 <= usize::MAX,
        ensures
            r == dense_bytes(dim as int, nbits as int),
    {
        (nbits * dim + 7) / 8
    }

    /// Bytes that a compressed vector takes.
    pub fn total_bytes(dim: usize, nbits: usize) -> (r: usize)
        requires
            nbits * dim + 7 <= usize::MAX,
            dense_bytes(dim as int, nbits as int) + 8 <= usize::MAX,
        ensures
            r == dense_bytes(dim as int, nbits as int) + 8,
    {
        TQGeneration::packed_code_bytes(dim, nbits) + 8
    }

    /// Packs the codes of a vector without a gap. They have to fit into their width.
    pub fn pack_codes(codes: &[u8], nbits: usize) -> (packed: Vec<u8>)
        requires
            nbits * codes@.len() + 7 <= usize::MAX,
            codes_fit(codes@, nbits),
        ensures
            packed@ == disk_codes(codes@, nbits),
    {
        let size: usize = TQGeneration::packed_code_bytes(codes.len(), nbits);
        let mut packed: Vec<u8> = Vec::with_capacity(size);
        let mut n: usize = 0;
        while n < size
            invariant
                n <= size,
                size == dense_bytes(codes@.len() as int, nbits as int),
                nbits * codes@.len() + 7 <= usize::MAX,
                packed@ == disk_codes(codes@, nbits).take(n as int),
            decreases size - n,
        {
            let ghost bits = dense_byte(codes@, nbits, n as int);
            let mut byte: u8 = 0;
            let mut t: usize = 8;
            proof {
                assert(bits.skip(8) =~= Seq::<bool>::empty());
                assert(nbits > 0) by {
                    if nbits == 0 {
                        assert(nbits * codes@.len() == 0) by (nonlinear_arith)
                            requires
                                nbits == 0,
                        ;
                    }
                }
            }
            while t > 0
                invariant
                    t <= 8,
                    0 < nbits,
                    n < size,
                    size == dense_bytes(codes@.len() as int, nbits as int),
                    nbits * codes@.len() + 7 <= usize::MAX,
                    bits == dense_byte(codes@, nbits, n as int),
                    byte == bits_value(bits.skip(t as int)),
                decreases t,
            {
                t -= 1;
                let b: usize = 8 * n + t;
                let at: usize = b / nbits;
                let set: bool = at < codes.len() && code_bit(codes[at], b % nbits);
                proof {
                    let here = bits.skip(t as int);
                    assert(here.drop_first() =~= bits.skip(t + 1));
                    assert(here[0] == bits[t as int]);
                    assert(set == bits[t as int]);
                    bits_fit(here);
                    byte_limit();
                    power_grows(here.len(), 8);
                }
                byte = 2 * byte + if set {
                    1
                } else {
                    0
                };
            }
            assert(bits.skip(0) =~= bits);
            packed.push(byte);
            n += 1;
            assert(packed@ =~= disk_codes(codes@, nbits).take(n as int));
        }
        assert(packed@ =~= disk_codes(codes@, nbits));
        packed
    }

    /// A compressor for the given quantizer.
    pub fn new_at_stage(context: TQGenerationContext) -> (r: Self)
        requires
            context.quantizer.wf(),
            context.quantizer.table().width() * context.quantizer.dims() + 7 <= usize::MAX,
            dense_bytes(
                context.quantizer.dims() as int,
                context.quantizer.table().width() as int,
            ) + 8 <= usize::MAX,
            context.quantizer.table().width() <= usize::MAX,
        ensures
            r.wf(),
            r.codec() == context.quantizer,
    {
        let quantizer = context.quantizer;
        let dim: usize = quantizer.dim();
        let nbits: usize = quantizer.nbits();
        let compressed_bytes: usize = TQGeneration::total_bytes(dim, nbits);
        TQGeneration { quantizer, compressed_bytes }
    }

    /// Bytes per compressed vector.
    pub fn compressed_bytes(&self) -> (r: usize)
        ensures
            r == self.size(),
    {
        self.compressed_bytes
    }

    /// Compresses the vector `v`, which was rotated to `y`.
    fn compress_row<A: Arithmetic>(&self, ops: &A, v: &[Real], y: &[Real]) -> (out: Vec<u8>)
        requires
            ops.ready(),
            self.wf(),
            self.codes_in_width(),
            v@.len() == self.codec().dims(),
            y@.len() == self.codec().dims(),
        ensures
            out@ == disk_record_of_rotated(*ops, self.codec(), v@, y@),
            out@.len() == self.size(),
    {
        let nbits: usize = self.quantizer.nbits();
        let encoded = self.quantizer.encode_rotated(ops, v, y);
        proof {
            let codes = encoded.codes@;
            assert(codes.len() == self.codec().dims());
            assert(codes_fit(codes, nbits)) by {
                assert forall|i: int| 0 <= i < codes.len() implies (#[trigger] codes[i])
                    < power_of_two(nbits as nat) by {
                    assert(codes_valid(codes, self.codec().table().values(), codes.len() as int));
                }
            }
        }
        let mut out = TQGeneration::pack_codes(encoded.codes.as_slice(), nbits);
        push4(&mut out, encoded.norm.bits);
        push4(&mut out, encoded.quant_norm_sq.bits);
        assert(out@ =~= disk_record_of_rotated(*ops, self.codec(), v@, y@));
        out
    }

    /// Compresses the first `nrows` rows of a matrix, one after another, rotating them by the
    /// matrix of the quantizer.
    pub fn compress<A: Arithmetic>(&self, ops: &A, vectors: &[Real], nrows: usize) -> (out: Vec<u8>)
        requires
            ops.ready(),
            self.wf(),
            self.codec().dense(),
            self.codes_in_width(),
            nrows * self.codec().dims() <= vectors@.len(),
        ensures
            out@.len() == nrows * self.size(),
            forall|r: int|
                0 <= r < nrows ==> #[trigger] out@.subrange(
                    r * self.size(),
                    r * self.size() + self.size(),
                ) == disk_record_of(
                    *ops,
                    self.codec(),
                    row(vectors@, self.codec().dims() as int, r),
                ),
    {
        let dim: usize = self.quantizer.dim();
        let mut turned: Vec<Real> = Vec::new();
        let mut r: usize = 0;
        assert(0 * dim == 0);
        while r < nrows
            invariant
                r <= nrows,
                ops.ready(),
                self.wf(),
                self.codec().dense(),
                dim == self.codec().dims(),
                nrows * dim <= vectors@.len(),
                turned@.len() == r * dim,
                forall|x: int|
                    0 <= x < r ==> #[trigger] row(turned@, dim as int, x) == rotated(
                        *ops,
                        self.codec().matrix(),
                        dim as int,
                        row(vectors@, dim as int, x),
                    ),
            decreases nrows - r,
        {
            let v = row_slice(vectors, dim, r, Ghost(nrows as int));
            let y = self.quantizer.rotate_query(ops, v);
            let ghost prior = turned@;
            let mut i: usize = 0;
            while i < y.len()
                invariant
                    i <= y@.len(),
                    turned@ == prior + y@.take(i as int),
                decreases y@.len() - i,
            {
                turned.push(y[i]);
                assert(turned@ =~= prior + y@.take(i + 1));
                i += 1;
            }
            proof {
                assert(y@.take(i as int) =~= y@);
                assert((r + 1) * dim == r * dim + dim) by (nonlinear_arith);
                assert forall|x: int| 0 <= x < r + 1 implies #[trigger] row(turned@, dim as int, x)
                    == rotated(
                    *ops,
                    self.codec().matrix(),
                    dim as int,
                    row(vectors@, dim as int, x),
                ) by {
                    if x < r {
                        row_bounds(x, r as int, dim as int);
                        assert(row(turned@, dim as int, x) =~= row(prior, dim as int, x));
                    } else {
                        assert(row(turned@, dim as int, x) =~= y@);
                    }
                }
            }
            r += 1;
        }
        self.compress_rotated(ops, vectors, turned.as_slice(), nrows)
    }

    /// Compresses the first `nrows` rows of a matrix, one after another; the rows of `rotated` are
    /// what they were rotated to.
    pub fn compress_rotated<A: Arithmetic>(
        &self,
        ops: &A,
        vectors: &[Real],
        rotated: &[Real],
        nrows: usize,
    ) -> (out: Vec<u8>)
        requires
            ops.ready(),
            self.wf(),
            self.codes_in_width(),
            nrows * self.codec().dims() <= vectors@.len(),
            nrows * self.codec().dims() <= rotated@.len(),
        ensures
            out@.len() == nrows * self.size(),
            forall|r: int|
                0 <= r < nrows ==> #[trigger] out@.subrange(
                    r * self.size(),
                    r * self.size() + self.size(),
                ) == disk_record_of_rotated(
                    *ops,
                    self.codec(),
                    row(vectors@, self.codec().dims() as int, r),
                    row(rotated@, self.codec().dims() as int, r),
                ),
    {
        let dim: usize = self.quantizer.dim();
        let ghost size = self.size() as int;
        let mut out: Vec<u8> = Vec::new();
        let mut r: usize = 0;
        assert(0 * size == 0);
        while r < nrows
            invariant
                r <= nrows,
                ops.ready(),
                self.wf(),
                self.codes_in_width(),
                size == self.size(),
                dim == self.codec().dims(),
                nrows * dim <= vectors@.len(),
                nrows * dim <= rotated@.len(),
                out@.len() == r * size,
                forall|x: int|
                    0 <= x < r ==> #[trigger] out@.subrange(x * size, x * size + size)
                        == disk_record_of_rotated(
                        *ops,
                        self.codec(),
                        row(vectors@, dim as int, x),
                        row(rotated@, dim as int, x),
                    ),
            decreases nrows - r,
        {
            let v = row_slice(vectors, dim, r, Ghost(nrows as int));
            let y = row_slice(rotated, dim, r, Ghost(nrows as int));
            let bytes = self.compress_row(ops, v, y);
            let ghost prior = out@;
            let mut i: usize = 0;
            while i < bytes.len()
                invariant
                    i <= bytes@.len(),
                    out@ == prior + bytes@.take(i as int),
                decreases bytes@.len() - i,
            {
                out.push(bytes[i]);
                assert(out@ =~= prior + bytes@.take(i + 1));
                i += 1;
            }
            proof {
                assert(bytes@.take(i as int) =~= bytes@);
                row_bounds(r as int, nrows as int, size);
                assert forall|x: int| 0 <= x < r + 1 implies #[trigger] out@.subrange(
                    x * size,
                    x * size + size,
                ) == disk_record_of_rotated(
                    *ops,
                    self.codec(),
                    row(vectors@, dim as int, x),
                    row(rotated@, dim as int, x),
                ) by {
                    if x < r {
                        rows_apart(x, r as int, size);
                        row_bounds(x, nrows as int, size);
                        assert(out@.subrange(x * size, x * size + size) =~= prior.subrange(
                            x * size,
                            x * size + size,
                        ));
                    } else {
                        assert(out@.subrange(x * size, x * size + size) =~= bytes@);
                    }
                }
            }
            r += 1;
        }
        out
    }
}

} // verus!
