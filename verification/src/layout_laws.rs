//! Where codes and numbers stand in stored bytes.

use crate::arith::Arithmetic;
use crate::gemm::dot_of;
use crate::graph::{le4, le4_reads_back, le8, read4};
use crate::measure::row;
use crate::number::{bit_at, power_of_two, Real};
use crate::quantize::{bits_fit, bits_read_back};
use crate::quantizer::{length_of, rotated, TurboQuantQuantizer};
use crate::tq_codes::{
    byte_from, codes_per_byte, encoded_bytes, levels, packed_codes, packed_codes_fit,
    TurboQuantMeta,
};
use crate::tq_generation::{
    dense_byte, disk_codes, disk_record_of, disk_record_of_rotated, stream_bit,
};
use crate::tq_store::{meta_of_rotated, record_of, record_of_rotated};
use vstd::prelude::*;

verus! {

/// Thirty-two bits are written with the lowest byte first.
pub proof fn lowest_byte_first(x: u32)
    ensures
        le4(x).len() == 4,
        x == le4(x)[0] + 0x100 * le4(x)[1] + 0x1_0000 * le4(x)[2] + 0x100_0000 * le4(x)[3],
{
    le4_reads_back(x);
    assert(x == read4(le4(x), 0));
}

/// Sixty-four bits are written with the lowest byte first.
pub proof fn lowest_byte_first_of_eight(x: u64)
    ensures
        le8(x).len() == 8,
        x == le8(x)[0] + 0x100 * le8(x)[1] + 0x1_0000 * le8(x)[2] + 0x100_0000 * le8(x)[3]
            + 0x1_0000_0000 * (le8(x)[4] + 0x100 * le8(x)[5] + 0x1_0000 * le8(x)[6] + 0x100_0000
            * le8(x)[7]),
{
    let low = (x % 0x1_0000_0000) as u32;
    let high = (x / 0x1_0000_0000) as u32;
    lowest_byte_first(low);
    lowest_byte_first(high);
    assert(x == low + 0x1_0000_0000 * high);
    assert(le8(x)[4] == le4(high)[0]);
    assert(le8(x)[5] == le4(high)[1]);
    assert(le8(x)[6] == le4(high)[2]);
    assert(le8(x)[7] == le4(high)[3]);
}

/// Code `i` of a list, cut to `levels` values; zero past the end.
pub open spec fn cut_code(codes: Seq<u8>, i: int, levels: int) -> int {
    if i < codes.len() {
        codes[i] as int % levels
    } else {
        0
    }
}

/// Codes share bytes with the earlier code in the lower bits: two codes of four bits, four of two
/// bits, or eight of one bit to a byte. Codes of other widths take a byte each.
pub proof fn earlier_codes_low(codes: Seq<u8>, b: int)
    requires
        0 <= b,
    ensures
        2 * b < codes.len() ==> packed_codes(codes, 4)[b] == cut_code(codes, 2 * b, 16) + 16
            * cut_code(codes, 2 * b + 1, 16),
        4 * b < codes.len() ==> packed_codes(codes, 2)[b] == cut_code(codes, 4 * b, 4) + 4
            * cut_code(codes, 4 * b + 1, 4) + 16 * cut_code(codes, 4 * b + 2, 4) + 64 * cut_code(
            codes,
            4 * b + 3,
            4,
        ),
        8 * b < codes.len() ==> packed_codes(codes, 1)[b] == cut_code(codes, 8 * b, 2) + 2
            * cut_code(codes, 8 * b + 1, 2) + 4 * cut_code(codes, 8 * b + 2, 2) + 8 * cut_code(
            codes,
            8 * b + 3,
            2,
        ) + 16 * cut_code(codes, 8 * b + 4, 2) + 32 * cut_code(codes, 8 * b + 5, 2) + 64 * cut_code(
            codes,
            8 * b + 6,
            2,
        ) + 128 * cut_code(codes, 8 * b + 7, 2),
        b < codes.len() ==> packed_codes(codes, 8)[b] == codes[b],
        forall|nbits: usize|
            nbits != 1 && nbits != 2 && nbits != 4 && nbits != 8 ==> #[trigger] packed_codes(
                codes,
                nbits,
            ) == codes,
{
    if 2 * b < codes.len() {
        two_to_a_byte(codes, b);
    }
    if 4 * b < codes.len() {
        four_to_a_byte(codes, b);
    }
    if 8 * b < codes.len() {
        eight_to_a_byte(codes, b);
    }
    if b < codes.len() {
        next_digit(codes, 8, b, 0, 1, 256);
        assert(byte_from(codes, 8, b, 1) == 0);
    }
}

proof fn next_digit(codes: Seq<u8>, nbits: usize, b: int, t: nat, per: int, top: int)
    requires
        0 <= b,
        codes_per_byte(nbits) == per,
        levels(nbits) == top,
        t < per,
    ensures
        byte_from(codes, nbits, b, t) == cut_code(codes, per * b + t, top) + top * byte_from(
            codes,
            nbits,
            b,
            t + 1,
        ),
{
    assert(b * codes_per_byte(nbits) == per * b) by (nonlinear_arith)
        requires
            codes_per_byte(nbits) == per,
    ;
    assert(0 <= per * b) by (nonlinear_arith)
        requires
            0 <= per,
            0 <= b,
    ;
}

proof fn two_to_a_byte(codes: Seq<u8>, b: int)
    requires
        0 <= b,
        2 * b < codes.len(),
    ensures
        packed_codes(codes, 4)[b] == cut_code(codes, 2 * b, 16) + 16 * cut_code(
            codes,
            2 * b + 1,
            16,
        ),
{
    next_digit(codes, 4, b, 0, 2, 16);
    next_digit(codes, 4, b, 1, 2, 16);
    assert(byte_from(codes, 4, b, 2) == 0);
}

proof fn four_to_a_byte(codes: Seq<u8>, b: int)
    requires
        0 <= b,
        4 * b < codes.len(),
    ensures
        packed_codes(codes, 2)[b] == cut_code(codes, 4 * b, 4) + 4 * cut_code(codes, 4 * b + 1, 4)
            + 16 * cut_code(codes, 4 * b + 2, 4) + 64 * cut_code(codes, 4 * b + 3, 4),
{
    next_digit(codes, 2, b, 0, 4, 4);
    next_digit(codes, 2, b, 1, 4, 4);
    next_digit(codes, 2, b, 2, 4, 4);
    next_digit(codes, 2, b, 3, 4, 4);
    assert(byte_from(codes, 2, b, 4) == 0);
}

proof fn eight_to_a_byte(codes: Seq<u8>, b: int)
    requires
        0 <= b,
        8 * b < codes.len(),
    ensures
        packed_codes(codes, 1)[b] == cut_code(codes, 8 * b, 2) + 2 * cut_code(codes, 8 * b + 1, 2)
            + 4 * cut_code(codes, 8 * b + 2, 2) + 8 * cut_code(codes, 8 * b + 3, 2) + 16 * cut_code(
            codes,
            8 * b + 4,
            2,
        ) + 32 * cut_code(codes, 8 * b + 5, 2) + 64 * cut_code(codes, 8 * b + 6, 2) + 128
            * cut_code(codes, 8 * b + 7, 2),
{
    next_digit(codes, 1, b, 0, 8, 2);
    next_digit(codes, 1, b, 1, 8, 2);
    next_digit(codes, 1, b, 2, 8, 2);
    next_digit(codes, 1, b, 3, 8, 2);
    next_digit(codes, 1, b, 4, 8, 2);
    next_digit(codes, 1, b, 5, 8, 2);
    next_digit(codes, 1, b, 6, 8, 2);
    next_digit(codes, 1, b, 7, 8, 2);
    assert(byte_from(codes, 1, b, 8) == 0);
}

/// Packed codes take no more bytes than their bits fill.
pub proof fn packed_codes_length(codes: Seq<u8>, nbits: usize)
    ensures
        packed_codes(codes, nbits).len() == if nbits == 1 || nbits == 2 || nbits == 4 || nbits
            == 8 {
            (codes.len() * nbits + 7) / 8
        } else {
            codes.len() as int
        },
{
    packed_codes_fit(codes.len() as int, nbits);
}

/// A stored vector is its packed codes, then the four bytes of its length, then the four bytes of
/// its squared length once reconstructed, each with the lowest byte first.
pub proof fn numbers_follow_codes(codes: Seq<u8>, nbits: usize, meta: TurboQuantMeta)
    ensures
        ({
            let bytes = encoded_bytes(codes, nbits, meta);
            let at = packed_codes(codes, nbits).len() as int;
            &&& bytes.len() == at + 8
            &&& bytes.take(at) == packed_codes(codes, nbits)
            &&& meta.norm.bits == bytes[at] + 0x100 * bytes[at + 1] + 0x1_0000 * bytes[at + 2]
                + 0x100_0000 * bytes[at + 3]
            &&& meta.quant_norm_sq.bits == bytes[at + 4] + 0x100 * bytes[at + 5] + 0x1_0000
                * bytes[at + 6] + 0x100_0000 * bytes[at + 7]
        }),
{
    let bytes = encoded_bytes(codes, nbits, meta);
    let front = packed_codes(codes, nbits);
    let at = front.len() as int;
    lowest_byte_first(meta.norm.bits);
    lowest_byte_first(meta.quant_norm_sq.bits);
    assert(bytes.take(at) =~= front);
    assert forall|j: int| 0 <= j < 4 implies bytes[at + j] == #[trigger] le4(meta.norm.bits)[j]
        && bytes[at + 4 + j] == le4(meta.quant_norm_sq.bits)[j] by {}
    assert(bytes[at + 0] == le4(meta.norm.bits)[0]);
    assert(bytes[at + 1] == le4(meta.norm.bits)[1]);
    assert(bytes[at + 2] == le4(meta.norm.bits)[2]);
    assert(bytes[at + 3] == le4(meta.norm.bits)[3]);
}

/// On disk the bits of the codes follow each other without a gap, the lowest bit of each code
/// first; what is left of the last byte is clear.
pub proof fn disk_bits_in_order(codes: Seq<u8>, nbits: usize, b: int)
    requires
        0 < nbits,
        0 <= b < 8 * disk_codes(codes, nbits).len(),
    ensures
        disk_codes(codes, nbits).len() == (nbits * codes.len() + 7) / 8,
        bit_at(disk_codes(codes, nbits)[b / 8] as nat, (b % 8) as nat) <==> b / (nbits as int)
            < codes.len() && bit_at(
            codes[b / (nbits as int)] as nat,
            (b % (nbits as int)) as nat,
        ),
{
    let n = b / 8;
    let bits = dense_byte(codes, nbits, n);
    bits_fit(bits);
    assert(power_of_two(8) == 256) by {
        reveal_with_fuel(power_of_two, 9);
    }
    bits_read_back(bits, b % 8);
    assert(bits[b % 8] == stream_bit(codes, nbits, b));
}

/// A record on disk is the codes, then the four bytes of the vector's length, then the four bytes
/// of its squared length once reconstructed.
pub proof fn disk_numbers_follow_codes<A: Arithmetic>(
    ops: A,
    q: TurboQuantQuantizer,
    v: Seq<Real>,
    y: Seq<Real>,
)
    ensures
        ({
            let bytes = disk_record_of_rotated(ops, q, v, y);
            let meta = meta_of_rotated(ops, q, v, y);
            let codes = disk_codes(
                q.codes_of_rotated(ops, meta.norm, y),
                q.table().width() as usize,
            );
            let at = codes.len() as int;
            &&& bytes.len() == at + 8
            &&& bytes.take(at) == codes
            &&& meta.norm.bits == bytes[at] + 0x100 * bytes[at + 1] + 0x1_0000 * bytes[at + 2]
                + 0x100_0000 * bytes[at + 3]
            &&& meta.quant_norm_sq.bits == bytes[at + 4] + 0x100 * bytes[at + 5] + 0x1_0000
                * bytes[at + 6] + 0x100_0000 * bytes[at + 7]
        }),
{
    let bytes = disk_record_of_rotated(ops, q, v, y);
    let meta = meta_of_rotated(ops, q, v, y);
    let codes = disk_codes(q.codes_of_rotated(ops, meta.norm, y), q.table().width() as usize);
    let at = codes.len() as int;
    lowest_byte_first(meta.norm.bits);
    lowest_byte_first(meta.quant_norm_sq.bits);
    assert(bytes.take(at) =~= codes);
    assert forall|j: int| 0 <= j < 4 implies bytes[at + j] == #[trigger] le4(meta.norm.bits)[j]
        && bytes[at + 4 + j] == le4(meta.quant_norm_sq.bits)[j] by {}
    assert(bytes[at + 0] == le4(meta.norm.bits)[0]);
    assert(bytes[at + 1] == le4(meta.norm.bits)[1]);
    assert(bytes[at + 2] == le4(meta.norm.bits)[2]);
    assert(bytes[at + 3] == le4(meta.norm.bits)[3]);
}

/// A vector is rotated by taking its dot product with every row of the matrix. What is kept of it,
/// in memory and on disk, and its codes, come of that and of the vector's own length.
pub proof fn rows_rotate_vectors<A: Arithmetic>(
    ops: A,
    q: TurboQuantQuantizer,
    v: Seq<Real>,
    y: Seq<Real>,
)
    requires
        y.len() == q.dims(),
        forall|i: int|
            0 <= i < q.dims() ==> #[trigger] y[i] == dot_of(
                ops,
                row(q.matrix(), q.dims() as int, i),
                v,
            ),
    ensures
        rotated(ops, q.matrix(), q.dims() as int, v) == y,
        q.codes_for(ops, v) == q.codes_of_rotated(ops, length_of(ops, v), y),
        record_of(ops, q, v) == record_of_rotated(ops, q, v, y),
        disk_record_of(ops, q, v) == disk_record_of_rotated(ops, q, v, y),
        meta_of_rotated(ops, q, v, y).norm == length_of(ops, v),
{
    assert(rotated(ops, q.matrix(), q.dims() as int, v) =~= y);
}

} // verus!
