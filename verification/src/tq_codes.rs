//! Packed storage of quantization codes.
//!
//! Codes of one, two, four or eight bits share bytes, the first code in the lowest bits. Codes of
//! other widths take a byte each. An encoded vector is its codes followed by two numbers.

use crate::graph::{le4, le4_reads_back, read4};
use crate::number::Real;
use vstd::prelude::*;

verus! {

/// Whether codes of this width share bytes.
pub open spec fn packable(nbits: usize) -> bool {
    nbits == 1 || nbits == 2 || nbits == 4 || nbits == 8
}

/// How many values a code of this width has.
pub open spec fn levels(nbits: usize) -> nat {
    if nbits == 1 {
        2
    } else if nbits == 2 {
        4
    } else if nbits == 4 {
        16
    } else {
        256
    }
}

/// How many codes of this width a byte holds.
pub open spec fn codes_per_byte(nbits: usize) -> nat {
    if nbits == 1 {
        8
    } else if nbits == 2 {
        4
    } else if nbits == 4 {
        2
    } else {
        1
    }
}

/// Bytes that `dim` codes take.
pub open spec fn code_bytes(dim: int, nbits: usize) -> int {
    if packable(nbits) {
        (dim * nbits + 7) / 8
    } else {
        dim
    }
}

/// Digit `t` of `x` in base `m`, counted from the lowest.
pub open spec fn digit(x: nat, m: nat, t: nat) -> nat
    decreases t,
{
    if t == 0 {
        x % m
    } else {
        digit(x / m, m, (t - 1) as nat)
    }
}

/// The code at position `idx` of packed codes.
pub open spec fn code_at(packed: Seq<u8>, idx: int, nbits: usize) -> u8 {
    if packable(nbits) {
        let per = codes_per_byte(nbits) as int;
        digit(packed[idx / per] as nat, levels(nbits), (idx % per) as nat) as u8
    } else {
        packed[idx]
    }
}

/// The number whose digits from `t` on are the codes of byte `b`; codes beyond the end count as
/// zero.
pub open spec fn byte_from(codes: Seq<u8>, nbits: usize, b: int, t: nat) -> nat
    decreases codes_per_byte(nbits) - t,
{
    if t >= codes_per_byte(nbits) {
        0
    } else {
        let i = b * codes_per_byte(nbits) + t;
        let d: nat = if i < codes.len() {
            codes[i] as nat % levels(nbits)
        } else {
            0
        };
        d + levels(nbits) * byte_from(codes, nbits, b, t + 1)
    }
}

/// How many bytes a list of codes takes.
pub open spec fn packed_len(n: int, nbits: usize) -> int {
    if packable(nbits) {
        (n + codes_per_byte(nbits) - 1) / codes_per_byte(nbits) as int
    } else {
        n
    }
}

/// A list of codes, packed.
pub open spec fn packed_codes(codes: Seq<u8>, nbits: usize) -> Seq<u8> {
    if packable(nbits) {
        Seq::new(
            packed_len(codes.len() as int, nbits) as nat,
            |b: int| byte_from(codes, nbits, b, 0) as u8,
        )
    } else {
        codes
    }
}

/// Greatest value of the digits from `t` on, plus one.
spec fn span(nbits: usize, t: nat) -> nat
    decreases codes_per_byte(nbits) - t,
{
    if t >= codes_per_byte(nbits) {
        1
    } else {
        levels(nbits) * span(nbits, t + 1)
    }
}

proof fn byte_fits(codes: Seq<u8>, nbits: usize, b: int, t: nat)
    requires
        packable(nbits),
        t <= codes_per_byte(nbits),
    ensures
        byte_from(codes, nbits, b, t) < span(nbits, t),
    decreases codes_per_byte(nbits) - t,
{
    if t < codes_per_byte(nbits) {
        byte_fits(codes, nbits, b, t + 1);
        let m = levels(nbits);
        let rest = byte_from(codes, nbits, b, t + 1);
        let s = span(nbits, t + 1);
        assert(m * rest + m <= m * s) by (nonlinear_arith)
            requires
                rest + 1 <= s,
                0 <= m,
        ;
    }
}

proof fn spans(nbits: usize)
    requires
        packable(nbits),
    ensures
        span(nbits, 0) == 256,
{
    if nbits == 1 {
        assert(span(nbits, 8) == 1);
        assert(span(nbits, 7) == 2);
        assert(span(nbits, 6) == 4);
        assert(span(nbits, 5) == 8);
        assert(span(nbits, 4) == 16);
        assert(span(nbits, 3) == 32);
        assert(span(nbits, 2) == 64);
        assert(span(nbits, 1) == 128);
        assert(span(nbits, 0) == 256);
    } else if nbits == 2 {
        assert(span(nbits, 4) == 1);
        assert(span(nbits, 3) == 4);
        assert(span(nbits, 2) == 16);
        assert(span(nbits, 1) == 64);
        assert(span(nbits, 0) == 256);
    } else if nbits == 4 {
        assert(span(nbits, 2) == 1);
        assert(span(nbits, 1) == 16);
        assert(span(nbits, 0) == 256);
    } else {
        assert(span(nbits, 1) == 1);
        assert(span(nbits, 0) == 256);
    }
}

/// The digits of a packed byte are its codes.
proof fn byte_digits(codes: Seq<u8>, nbits: usize, b: int, t: nat, j: nat)
    requires
        packable(nbits),
        t + j < codes_per_byte(nbits),
    ensures
        digit(byte_from(codes, nbits, b, t), levels(nbits), j) == {
            let i = b * codes_per_byte(nbits) + t + j;
            if i < codes.len() {
                codes[i] as nat % levels(nbits)
            } else {
                0
            }
        },
    decreases j,
{
    let m = levels(nbits);
    let i = b * codes_per_byte(nbits) + t;
    let d: nat = if i < codes.len() {
        codes[i] as nat % m
    } else {
        0
    };
    let rest = byte_from(codes, nbits, b, t + 1);
    let x = byte_from(codes, nbits, b, t);
    assert(x == d + m * rest);
    vstd::arithmetic::div_mod::lemma_fundamental_div_mod_converse(
        x as int,
        m as int,
        rest as int,
        d as int,
    );
    if j > 0 {
        byte_digits(codes, nbits, b, t + 1, (j - 1) as nat);
    }
}

/// Every code can be read back from the packed list, cut to its width.
pub proof fn packed_codes_read_back(codes: Seq<u8>, nbits: usize, i: int)
    requires
        0 <= i < codes.len(),
    ensures
        code_at(packed_codes(codes, nbits), i, nbits) == if packable(nbits) {
            (codes[i] as nat % levels(nbits)) as u8
        } else {
            codes[i]
        },
{
    if packable(nbits) {
        let per = codes_per_byte(nbits) as int;
        let b = i / per;
        let t = i % per;
        assert(b * per + t == i && 0 <= t < per && 0 <= b) by (nonlinear_arith)
            requires
                b == i / per,
                t == i % per,
                per > 0,
                0 <= i,
        ;
        assert(b < packed_len(codes.len() as int, nbits)) by (nonlinear_arith)
            requires
                packed_len(codes.len() as int, nbits) == (codes.len() + per - 1) / per,
                b * per + t == i,
                0 <= t,
                i < codes.len(),
                per > 0,
        ;
        spans(nbits);
        byte_fits(codes, nbits, b, 0);
        byte_digits(codes, nbits, b, 0, t as nat);
    }
}

/// Packing fills exactly the bytes that are set aside for it.
pub proof fn packed_codes_fit(dim: int, nbits: usize)
    requires
        0 <= dim,
    ensures
        packed_len(dim, nbits) == code_bytes(dim, nbits),
{
    if nbits == 1 || nbits == 2 || nbits == 4 || nbits == 8 {
        assert(dim * 1 == dim);
    }
}

/// Whether codes of this width share bytes.
pub fn is_packable(nbits: usize) -> (r: bool)
    ensures
        r == packable(nbits),
{
    nbits == 1 || nbits == 2 || nbits == 4 || nbits == 8
}

/// Bytes that `dim` codes take.
pub fn packed_code_bytes(dim: usize, nbits: usize) -> (r: usize)
    requires
        packable(nbits) ==> dim * nbits + 7 <= usize::MAX,
    ensures
        r == code_bytes(dim as int, nbits),
{
    if is_packable(nbits) {
        (dim * nbits + 7) / 8
    } else {
        dim
    }
}

/// Bytes that an encoded vector takes: its codes and two numbers.
pub fn bytes_per_vector(dim: usize, nbits: usize) -> (r: usize)
    requires
        packable(nbits) ==> dim * nbits + 7 <= usize::MAX,
        code_bytes(dim as int, nbits) + 8 <= usize::MAX,
    ensures
        r == code_bytes(dim as int, nbits) + 8,
{
    packed_code_bytes(dim, nbits) + 8
}

fn base_of(nbits: usize) -> (r: u32)
    requires
        packable(nbits),
    ensures
        r == levels(nbits),
{
    if nbits == 1 {
        2
    } else if nbits == 2 {
        4
    } else if nbits == 4 {
        16
    } else {
        256
    }
}

fn per_byte(nbits: usize) -> (r: usize)
    requires
        packable(nbits),
    ensures
        r == codes_per_byte(nbits),
{
    if nbits == 1 {
        8
    } else if nbits == 2 {
        4
    } else if nbits == 4 {
        2
    } else {
        1
    }
}

proof fn span_bound(nbits: usize, t: nat)
    requires
        packable(nbits),
        t <= codes_per_byte(nbits),
    ensures
        1 <= span(nbits, t) <= 256,
{
    reveal_with_fuel(span, 9);
}

/// Packs byte `b` of a list of codes.
fn pack_byte(codes: &[u8], nbits: usize, b: usize) -> (r: u8)
    requires
        packable(nbits),
        b * codes_per_byte(nbits) < codes@.len(),
        codes@.len() + 8 <= usize::MAX,
    ensures
        r == byte_from(codes@, nbits, b as int, 0),
{
    let m: u32 = base_of(nbits);
    let per: usize = per_byte(nbits);
    let mut x: u32 = 0;
    let mut t: usize = per;
    let start: usize = b * per;
    proof {
        spans(nbits);
    }
    while t > 0
        invariant
            t <= per,
            per == codes_per_byte(nbits),
            m == levels(nbits),
            packable(nbits),
            start == b * per,
            start < codes@.len(),
            codes@.len() + 8 <= usize::MAX,
            x == byte_from(codes@, nbits, b as int, t as nat),
            x < span(nbits, t as nat),
        decreases t,
    {
        proof {
            byte_fits(codes@, nbits, b as int, (t - 1) as nat);
            span_bound(nbits, t as nat);
            span_bound(nbits, (t - 1) as nat);
            assert(m * x < 0x1_0000_0000) by (nonlinear_arith)
                requires
                    m <= 256,
                    x < 256,
            ;
        }
        t -= 1;
        let i: usize = start + t;
        let d: u32 = if i < codes.len() {
            codes[i] as u32 % m
        } else {
            0
        };
        x = d + m * x;
    }
    x as u8
}

/// Packs a list of codes.
pub fn pack_codes(codes: &[u8], nbits: usize) -> (packed: Vec<u8>)
    requires
        codes@.len() + 8 <= usize::MAX,
    ensures
        packed@ == packed_codes(codes@, nbits),
        packed@.len() == code_bytes(codes@.len() as int, nbits),
{
    proof {
        packed_codes_fit(codes@.len() as int, nbits);
    }
    let mut packed: Vec<u8> = Vec::new();
    if !is_packable(nbits) {
        let mut i: usize = 0;
        while i < codes.len()
            invariant
                i <= codes@.len(),
                packed@ == codes@.take(i as int),
            decreases codes@.len() - i,
        {
            packed.push(codes[i]);
            assert(packed@ =~= codes@.take(i + 1));
            i += 1;
        }
        assert(packed@ =~= codes@);
        return packed;
    }
    let per: usize = per_byte(nbits);
    let len: usize = (codes.len() + per - 1) / per;
    let mut b: usize = 0;
    while b < len
        invariant
            b <= len,
            packable(nbits),
            per == codes_per_byte(nbits),
            len == (codes@.len() + per - 1) / per as int,
            codes@.len() + 8 <= usize::MAX,
            packed@.len() == b,
            forall|x: int| 0 <= x < b ==> #[trigger] packed@[x] == byte_from(codes@, nbits, x, 0) as u8,
        decreases len - b,
    {
        proof {
            assert(b * per < codes@.len()) by (nonlinear_arith)
                requires
                    b < len,
                    len == (codes@.len() + per - 1) / per as int,
                    1 <= per,
            ;
        }
        packed.push(pack_byte(codes, nbits, b));
        b += 1;
    }
    assert(packed@ =~= packed_codes(codes@, nbits));
    packed
}

/// Reads the code at position `idx` of packed codes.
pub fn extract_code(packed: &[u8], idx: usize, nbits: usize) -> (r: u8)
    requires
        idx < if packable(nbits) { packed@.len() * codes_per_byte(nbits) } else { packed@.len() },
    ensures
        r == code_at(packed@, idx as int, nbits),
{
    if !is_packable(nbits) {
        return packed[idx];
    }
    let m: u32 = base_of(nbits);
    let per: usize = per_byte(nbits);
    let b: usize = idx / per;
    let t: usize = idx % per;
    proof {
        assert(b < packed@.len()) by (nonlinear_arith)
            requires
                b == idx as int / per as int,
                idx < packed@.len() * per,
                1 <= per,
        ;
    }
    let byte: u32 = packed[b] as u32;
    let mut x: u32 = byte;
    let mut left: usize = t;
    while left > 0
        invariant
            m == levels(nbits),
            packable(nbits),
            x <= 255,
            digit(x as nat, m as nat, left as nat) == digit(byte as nat, m as nat, t as nat),
        decreases left,
    {
        proof {
            assert(x as int / m as int <= x) by (nonlinear_arith)
                requires
                    0 <= x,
                    1 <= m,
            ;
        }
        x = x / m;
        left -= 1;
    }
    proof {
        assert(x as int % m as int <= x) by (nonlinear_arith)
            requires
                0 <= x,
                1 <= m,
        ;
    }
    (x % m) as u8
}

/// What is known of a vector beside its codes.
#[derive(Clone, Copy, Debug, PartialEq, Eq, Structural)]
pub struct TurboQuantMeta {
    /// Length of the original vector.
    pub norm: Real,
    /// Squared length of the reconstructed vector.
    pub quant_norm_sq: Real,
}

/// An encoded vector as it is stored: packed codes, then the two numbers.
pub open spec fn encoded_bytes(codes: Seq<u8>, nbits: usize, meta: TurboQuantMeta) -> Seq<u8> {
    packed_codes(codes, nbits) + le4(meta.norm.bits) + le4(meta.quant_norm_sq.bits)
}

/// A stored vector: its packed codes and the numbers beside them.
#[derive(Clone, Copy, Debug)]
pub struct TQRef<'a> {
    pub codes: &'a [u8],
    pub meta: TurboQuantMeta,
}

/// The numbers in a stored vector.
pub open spec fn stored_meta(bytes: Seq<u8>, dim: int, nbits: usize) -> TurboQuantMeta {
    let at = code_bytes(dim, nbits);
    TurboQuantMeta {
        norm: Real { bits: read4(bytes, at) as u32 },
        quant_norm_sq: Real { bits: read4(bytes, at + 4) as u32 },
    }
}

fn read_number(slice: &[u8], at: usize) -> (r: Real)
    requires
        at + 4 <= slice@.len(),
    ensures
        r.bits == read4(slice@, at as int),
{
    assert(slice.len() == slice@.len());
    let bits: u32 = slice[at] as u32 + 256 * slice[at + 1] as u32 + 65536 * slice[at + 2] as u32
        + 16777216 * slice[at + 3] as u32;
    Real::from_bits(bits)
}

/// Reads a stored vector.
pub fn tqref_from_slice<'a>(slice: &'a [u8], dim: usize, nbits: usize) -> (r: TQRef<'a>)
    requires
        packable(nbits) ==> dim * nbits + 7 <= usize::MAX,
        code_bytes(dim as int, nbits) + 8 <= slice@.len(),
    ensures
        r.codes@ == slice@.take(code_bytes(dim as int, nbits)),
        r.meta == stored_meta(slice@, dim as int, nbits),
{
    assert(slice.len() == slice@.len());
    let at: usize = packed_code_bytes(dim, nbits);
    let codes = vstd::slice::slice_subrange(slice, 0, at);
    let norm = read_number(slice, at);
    let quant_norm_sq = read_number(slice, at + 4);
    assert(codes@ =~= slice@.take(code_bytes(dim as int, nbits)));
    TQRef { codes, meta: TurboQuantMeta { norm, quant_norm_sq } }
}

/// Writes bytes over the front of a slice, from `at` on.
fn overwrite(slice: &mut [u8], at: usize, bytes: &Vec<u8>)
    requires
        at + bytes@.len() <= old(slice)@.len(),
    ensures
        final(slice)@ == old(slice)@.take(at as int) + bytes@ + old(slice)@.skip(at + bytes@.len()),
{
    let ghost before = slice@;
    assert(slice.len() == slice@.len());
    let mut i: usize = 0;
    while i < bytes.len()
        invariant
            i <= bytes@.len(),
            at + bytes@.len() <= slice@.len() <= usize::MAX,
            slice@.len() == before.len(),
            forall|x: int| 0 <= x < i ==> #[trigger] slice@[at + x] == bytes@[x],
            forall|x: int|
                0 <= x < before.len() && !(at <= x < at + i) ==> #[trigger] slice@[x] == before[x],
        decreases bytes@.len() - i,
    {
        let ghost prior = slice@;
        slice[at + i] = bytes[i];
        proof {
            assert forall|x: int| 0 <= x < i implies #[trigger] slice@[at + x] == bytes@[x] by {
                assert(prior[at + x] == bytes@[x]);
            }
        }
        i += 1;
    }
    proof {
        let goal = before.take(at as int) + bytes@ + before.skip(at + bytes@.len());
        assert forall|x: int| 0 <= x < goal.len() implies slice@[x] == goal[x] by {
            if at <= x < at + bytes@.len() {
                assert(slice@[at + (x - at)] == bytes@[x - at]);
            }
        }
        assert(slice@ =~= goal);
    }
}

/// The four bytes of a number.
fn number_bytes(x: Real) -> (r: Vec<u8>)
    ensures
        r@ == le4(x.bits),
{
    let mut r: Vec<u8> = Vec::new();
    r.push((x.bits % 256) as u8);
    r.push((x.bits / 256 % 256) as u8);
    r.push((x.bits / 65536 % 256) as u8);
    r.push((x.bits / 16777216 % 256) as u8);
    assert(r@ =~= le4(x.bits));
    r
}

/// Writes an encoded vector over the front of a slice. The number of codes speaks for itself.
pub fn write_encoded(
    slice: &mut [u8],
    _dim: usize,
    nbits: usize,
    codes: &[u8],
    norm: Real,
    quant_norm_sq: Real,
)
    requires
        codes@.len() + 8 <= usize::MAX,
        code_bytes(codes@.len() as int, nbits) + 8 <= old(slice)@.len(),
    ensures
        final(slice)@ == encoded_bytes(codes@, nbits, (TurboQuantMeta { norm, quant_norm_sq }))
            + old(slice)@.skip(code_bytes(codes@.len() as int, nbits) + 8),
{
    let ghost before = slice@;
    assert(slice.len() == slice@.len());
    let packed = pack_codes(codes, nbits);
    let at: usize = packed.len();
    let norm_bytes = number_bytes(norm);
    let quant_bytes = number_bytes(quant_norm_sq);
    overwrite(slice, 0, &packed);
    overwrite(slice, at, &norm_bytes);
    overwrite(slice, at + 4, &quant_bytes);
    assert(slice@ =~= encoded_bytes(codes@, nbits, TurboQuantMeta { norm, quant_norm_sq })
        + before.skip(code_bytes(codes@.len() as int, nbits) + 8));
}

/// What is written as an encoded vector reads back: every code, cut to its width, and both
/// numbers.
pub proof fn encoded_reads_back(codes: Seq<u8>, nbits: usize, meta: TurboQuantMeta, rest: Seq<u8>)
    ensures
        ({
            let bytes = encoded_bytes(codes, nbits, meta) + rest;
            let dim = codes.len() as int;
            &&& stored_meta(bytes, dim, nbits) == meta
            &&& forall|i: int|
                0 <= i < codes.len() ==> #[trigger] code_at(
                    bytes.take(code_bytes(dim, nbits)),
                    i,
                    nbits,
                ) == if packable(nbits) {
                    (codes[i] as nat % levels(nbits)) as u8
                } else {
                    codes[i]
                }
        }),
{
    let dim = codes.len() as int;
    packed_codes_fit(dim, nbits);
    let bytes = encoded_bytes(codes, nbits, meta) + rest;
    let at = code_bytes(dim, nbits);
    let packed = packed_codes(codes, nbits);
    assert(packed.len() == at);
    assert(bytes.take(at) =~= packed);
    let a = le4(meta.norm.bits);
    let b = le4(meta.quant_norm_sq.bits);
    le4_reads_back(meta.norm.bits);
    le4_reads_back(meta.quant_norm_sq.bits);
    assert(bytes[at] == a[0] && bytes[at + 1] == a[1] && bytes[at + 2] == a[2] && bytes[at + 3]
        == a[3]);
    assert(bytes[at + 4] == b[0] && bytes[at + 5] == b[1] && bytes[at + 6] == b[2] && bytes[at + 7]
        == b[3]);
    assert(read4(bytes, at) == read4(a, 0));
    assert(read4(bytes, at + 4) == read4(b, 0));
    assert forall|i: int| 0 <= i < codes.len() implies #[trigger] code_at(
        bytes.take(at),
        i,
        nbits,
    ) == if packable(nbits) {
        (codes[i] as nat % levels(nbits)) as u8
    } else {
        codes[i]
    } by {
        packed_codes_read_back(codes, nbits, i);
    }
}

} // verus!
