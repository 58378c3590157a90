//! Scalar quantization of vectors to one bit per component.

use crate::arith::Arithmetic;
use crate::gemm::row_slice;
use crate::measure::{row, row_bounds};
use crate::number::{power_adds, power_of_two, Real};
use crate::quantized::{differing_bits, hamming_upto, QuantizedData};
use vstd::prelude::*;

verus! {

/// Encoding of one half.
pub const HALF_BITS: u32 = 0x3f00_0000;

/// A component that is shifted and scaled rounds to one rather than to zero, once it is cut to
/// the range between them. What is not a number rounds to zero.
pub open spec fn upper<A: Arithmetic>(ops: A, x: Real, shift: Real, inverse_scale: Real) -> bool {
    Real { bits: HALF_BITS }.le(ops.product(ops.difference(x, shift), inverse_scale))
}

/// The bit of component `j`; components past the end have none set.
pub open spec fn component_bit<A: Arithmetic>(
    ops: A,
    x: Seq<Real>,
    shift: Seq<Real>,
    inverse_scale: Real,
    j: int,
) -> bool {
    0 <= j < x.len() && upper(ops, x[j], shift[j], inverse_scale)
}

/// The number with the given binary digits, lowest first.
pub open spec fn bits_value(bits: Seq<bool>) -> nat
    decreases bits.len(),
{
    if bits.len() == 0 {
        0
    } else {
        (if bits[0] {
            1nat
        } else {
            0nat
        }) + 2 * bits_value(bits.drop_first())
    }
}

/// The bits of the components that word `w` holds.
pub open spec fn word_bits<A: Arithmetic>(
    ops: A,
    x: Seq<Real>,
    shift: Seq<Real>,
    inverse_scale: Real,
    w: int,
) -> Seq<bool> {
    Seq::new(64, |j: int| component_bit(ops, x, shift, inverse_scale, 64 * w + j))
}

/// Words that hold `ndims` bits.
pub open spec fn words_for(ndims: int) -> int {
    (ndims + 63) / 64
}

/// The quantized vector `x`.
pub open spec fn quantized_vector<A: Arithmetic>(
    ops: A,
    x: Seq<Real>,
    shift: Seq<Real>,
    inverse_scale: Real,
) -> Seq<u64> {
    Seq::new(
        words_for(x.len() as int) as nat,
        |w: int| bits_value(word_bits(ops, x, shift, inverse_scale, w)) as u64,
    )
}

/// The quantized data set of `npoints` vectors of `ndims` components.
pub open spec fn quantizes<A: Arithmetic>(
    ops: A,
    data: Seq<Real>,
    npoints: int,
    ndims: int,
    shift: Seq<Real>,
    inverse_scale: Real,
    q: QuantizedData,
) -> bool {
    &&& q.wf()
    &&& q.count() == npoints
    &&& q.dims() == ndims
    &&& q.width() == words_for(ndims)
    &&& forall|i: int|
        0 <= i < npoints ==> #[trigger] q.vector(i) == quantized_vector(
            ops,
            row(data, ndims, i),
            shift,
            inverse_scale,
        )
}

/// How many of the first `m` components of two vectors have unlike bits.
pub open spec fn unlike_upto<A: Arithmetic>(
    ops: A,
    x: Seq<Real>,
    y: Seq<Real>,
    shift: Seq<Real>,
    inverse_scale: Real,
    m: int,
) -> nat
    decreases m,
{
    if m <= 0 {
        0
    } else {
        unlike_upto(ops, x, y, shift, inverse_scale, m - 1) + if component_bit(
            ops,
            x,
            shift,
            inverse_scale,
            m - 1,
        ) == component_bit(ops, y, shift, inverse_scale, m - 1) {
            0nat
        } else {
            1nat
        }
    }
}

/// Digits give a number below the power of two of their count.
pub proof fn bits_fit(bits: Seq<bool>)
    ensures
        bits_value(bits) < power_of_two(bits.len()),
    decreases bits.len(),
{
    if bits.len() > 0 {
        bits_fit(bits.drop_first());
    }
}

/// Every digit can be read back from the number.
pub proof fn bits_read_back(bits: Seq<bool>, d: int)
    requires
        0 <= d < bits.len(),
    ensures
        bits[d] <==> bits_value(bits) / power_of_two(d as nat) % 2 == 1,
    decreases d,
{
    let rest = bits_value(bits.drop_first());
    let low = if bits[0] {
        1nat
    } else {
        0nat
    };
    if d > 0 {
        bits_read_back(bits.drop_first(), d - 1);
        let p = power_of_two((d - 1) as nat);
        crate::number::power_grows(0, (d - 1) as nat);
        assert((low + 2 * rest) / (2 * p) == rest / p) by {
            vstd::arithmetic::div_mod::lemma_div_denominator((low + 2 * rest) as int, 2, p as int);
            assert((low + 2 * rest) / 2 == rest);
        }
        assert(bits.drop_first()[d - 1] == bits[d]);
        assert(power_of_two(d as nat) == 2 * p);
        assert(bits_value(bits) == low + 2 * rest);
    } else {
        assert(power_of_two(0) == 1);
        assert(bits_value(bits) == low + 2 * rest);
        let v = bits_value(bits);
        assert(v / 1 == v) by (nonlinear_arith);
        assert((low + 2 * rest) % 2 == low);
    }
}

pub(crate) proof fn word_limit()
    ensures
        power_of_two(64) == 0x1_0000_0000_0000_0000,
{
    assert(power_of_two(16) == 0x1_0000) by {
        reveal_with_fuel(power_of_two, 17);
    }
    power_adds(16, 16);
    assert(power_of_two(32) == 0x1_0000_0000);
    power_adds(32, 32);
    assert(0x1_0000_0000nat * 0x1_0000_0000nat == 0x1_0000_0000_0000_0000nat) by (nonlinear_arith);
}

/// How many digits differ among the first `n`.
spec fn unlike_bits(a: Seq<bool>, b: Seq<bool>, n: int) -> nat
    decreases n,
{
    if n <= 0 {
        0
    } else {
        unlike_bits(a, b, n - 1) + if a[n - 1] == b[n - 1] {
            0nat
        } else {
            1nat
        }
    }
}

proof fn unlike_bits_first(a: Seq<bool>, b: Seq<bool>, n: int)
    requires
        0 < n <= a.len(),
        n <= b.len(),
    ensures
        unlike_bits(a, b, n) == unlike_bits(a.drop_first(), b.drop_first(), n - 1) + if a[0]
            == b[0] {
            0nat
        } else {
            1nat
        },
    decreases n,
{
    if n > 1 {
        unlike_bits_first(a, b, n - 1);
        assert(a.drop_first()[n - 2] == a[n - 1]);
        assert(b.drop_first()[n - 2] == b[n - 1]);
    } else {
        assert(unlike_bits(a, b, 0) == 0);
        assert(unlike_bits(a.drop_first(), b.drop_first(), 0) == 0);
    }
}

proof fn digits_differ(a: Seq<bool>, b: Seq<bool>)
    requires
        a.len() == b.len(),
    ensures
        differing_bits(bits_value(a), bits_value(b), a.len()) == unlike_bits(
            a,
            b,
            a.len() as int,
        ),
    decreases a.len(),
{
    if a.len() > 0 {
        digits_differ(a.drop_first(), b.drop_first());
        unlike_bits_first(a, b, a.len() as int);
        assert(bits_value(a) / 2 == bits_value(a.drop_first()));
        assert(bits_value(b) / 2 == bits_value(b.drop_first()));
        assert(bits_value(a) % 2 == if a[0] {
            1nat
        } else {
            0nat
        });
        assert(bits_value(b) % 2 == if b[0] {
            1nat
        } else {
            0nat
        });
    }
}

proof fn word_unlike<A: Arithmetic>(
    ops: A,
    x: Seq<Real>,
    y: Seq<Real>,
    shift: Seq<Real>,
    inverse_scale: Real,
    w: int,
    n: int,
)
    requires
        0 <= w,
        0 <= n <= 64,
    ensures
        unlike_upto(ops, x, y, shift, inverse_scale, 64 * w + n) == unlike_upto(
            ops,
            x,
            y,
            shift,
            inverse_scale,
            64 * w,
        ) + unlike_bits(
            word_bits(ops, x, shift, inverse_scale, w),
            word_bits(ops, y, shift, inverse_scale, w),
            n,
        ),
    decreases n,
{
    if n > 0 {
        word_unlike(ops, x, y, shift, inverse_scale, w, n - 1);
    }
}

/// The number of differing bits of two quantized vectors, over their first `m` words, is the
/// number of components of these words on which the vectors fall into different halves.
pub proof fn hamming_counts_components<A: Arithmetic>(
    ops: A,
    x: Seq<Real>,
    y: Seq<Real>,
    shift: Seq<Real>,
    inverse_scale: Real,
    m: int,
)
    requires
        x.len() == y.len(),
        0 <= m <= words_for(x.len() as int),
    ensures
        hamming_upto(
            quantized_vector(ops, x, shift, inverse_scale),
            quantized_vector(ops, y, shift, inverse_scale),
            m,
        ) == unlike_upto(ops, x, y, shift, inverse_scale, 64 * m),
    decreases m,
{
    if m > 0 {
        hamming_counts_components(ops, x, y, shift, inverse_scale, m - 1);
        let a = word_bits(ops, x, shift, inverse_scale, m - 1);
        let b = word_bits(ops, y, shift, inverse_scale, m - 1);
        word_unlike(ops, x, y, shift, inverse_scale, m - 1, 64);
        digits_differ(a, b);
        word_limit();
        bits_fit(a);
        bits_fit(b);
    }
}

/// Quantizes the components that word `w` of a vector holds.
fn quantize_word<A: Arithmetic>(
    ops: &A,
    x: &[Real],
    shift: &[Real],
    inverse_scale: Real,
    w: usize,
) -> (r: u64)
    requires
        ops.ready(),
        shift@.len() == x@.len(),
        w < words_for(x@.len() as int),
    ensures
        r == bits_value(word_bits(*ops, x@, shift@, inverse_scale, w as int)),
{
    let ghost bits = word_bits(*ops, x@, shift@, inverse_scale, w as int);
    assert(x.len() == x@.len());
    let ndims: usize = x.len();
    let first: usize = 64 * w;
    let mut r: u64 = 0;
    let mut j: usize = 64;
    assert(bits.skip(64) =~= Seq::<bool>::empty());
    while j > 0
        invariant
            j <= 64,
            ops.ready(),
            ndims == x@.len() == shift@.len(),
            first == 64 * w,
            first < ndims,
            bits == word_bits(*ops, x@, shift@, inverse_scale, w as int),
            r == bits_value(bits.skip(j as int)),
        decreases j,
    {
        j -= 1;
        let bit: bool = if j < ndims - first {
            let scaled = ops.times(ops.minus(x[first + j], shift[first + j]), inverse_scale);
            Real::from_bits(HALF_BITS).is_at_most(scaled)
        } else {
            false
        };
        proof {
            let above = bits.skip(j + 1);
            let here = bits.skip(j as int);
            assert(here.drop_first() =~= above);
            assert(here[0] == bits[j as int]);
            assert(bit == bits[j as int]);
            bits_fit(here);
            word_limit();
            crate::number::power_grows(here.len(), 64);
        }
        r = 2 * r + if bit {
            1
        } else {
            0
        };
    }
    assert(bits.skip(0) =~= bits);
    r
}

/// Quantizes `npoints` vectors of `ndims` components to one bit per component.
pub fn quantize_1bit<A: Arithmetic>(
    ops: &A,
    data: &[Real],
    npoints: usize,
    ndims: usize,
    shift: &[Real],
    inverse_scale: Real,
) -> (r: QuantizedData)
    requires
        ops.ready(),
        npoints * ndims <= data@.len(),
        shift@.len() == ndims,
    ensures
        quantizes(*ops, data@, npoints as int, ndims as int, shift@, inverse_scale, r),
{
    let width: usize = ndims / 64 + if ndims % 64 == 0 {
        0
    } else {
        1
    };
    assert(width == words_for(ndims as int));
    let mut words: Vec<u64> = Vec::new();
    let mut i: usize = 0;
    proof {
        assert(data.len() == data@.len());
    }
    while i < npoints
        invariant
            i <= npoints,
            ops.ready(),
            npoints * ndims <= data@.len(),
            shift@.len() == ndims,
            width == words_for(ndims as int),
            words@.len() == i * width,
            forall|x: int|
                0 <= x < i ==> #[trigger] words@.subrange(x * width, x * width + width)
                    == quantized_vector(*ops, row(data@, ndims as int, x), shift@, inverse_scale),
        decreases npoints - i,
    {
        let point = row_slice(data, ndims, i, Ghost(npoints as int));
        let ghost target = quantized_vector(*ops, point@, shift@, inverse_scale);
        let ghost before = words@;
        let mut w: usize = 0;
        while w < width
            invariant
                w <= width,
                ops.ready(),
                point@ == row(data@, ndims as int, i as int),
                point@.len() == ndims == shift@.len(),
                width == words_for(ndims as int),
                target == quantized_vector(*ops, point@, shift@, inverse_scale),
                words@ == before + target.take(w as int),
            decreases width - w,
        {
            let word = quantize_word(ops, point, shift, inverse_scale, w);
            words.push(word);
            w += 1;
            assert(target.take(w as int) =~= target.take(w - 1).push(word));
            assert(words@ =~= before + target.take(w as int));
        }
        proof {
            assert(target.take(width as int) =~= target);
            assert((i + 1) * width == i * width + width) by (nonlinear_arith);
            assert forall|x: int| 0 <= x < i + 1 implies #[trigger] words@.subrange(
                x * width,
                x * width + width,
            ) == quantized_vector(*ops, row(data@, ndims as int, x), shift@, inverse_scale) by {
                if x < i {
                    row_bounds(x, i as int, width as int);
                    assert(words@.subrange(x * width, x * width + width) =~= before.subrange(
                        x * width,
                        x * width + width,
                    ));
                } else {
                    assert(words@.subrange(x * width, x * width + width) =~= target);
                }
            }
        }
        i += 1;
    }
    QuantizedData::from_words(words, npoints, ndims, width)
}

} // verus!
