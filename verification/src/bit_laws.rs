//! What the bits of quantized vectors say of their components.

use crate::arith::Arithmetic;
use crate::exact::{
    deeper, deepest, exact, exact_difference, exact_product, order_of_worth, short, total,
    total_of_more, units_worth, worth,
};
use crate::number::{bit_at, power_of_two, Real};
use crate::quantize::{
    bits_fit, bits_read_back, component_bit, quantized_vector, word_bits, word_limit, words_for,
};
use crate::quantized::{differing_bits, hamming, hamming_upto};
use vstd::prelude::*;

verus! {

/// Bit `j` of a quantized vector, sixty-four to a word from the lowest on, is set if and only if
/// the component, shifted and scaled, is a half or more. It is clear where that is not a number,
/// and past the last component.
pub proof fn bits_tell_halves<A: Arithmetic>(
    ops: A,
    x: Seq<Real>,
    shift: Seq<Real>,
    inverse_scale: Real,
    j: int,
)
    requires
        0 <= j < 64 * words_for(x.len() as int),
    ensures
        quantized_vector(ops, x, shift, inverse_scale).len() == (x.len() + 63) / 64,
        bit_at(
            quantized_vector(ops, x, shift, inverse_scale)[j / 64] as nat,
            (j % 64) as nat,
        ) <==> j < x.len() && (Real { bits: 0x3f00_0000 }).le(
            ops.product(ops.difference(x[j], shift[j]), inverse_scale),
        ),
{
    let w = j / 64;
    let bits = word_bits(ops, x, shift, inverse_scale, w);
    word_limit();
    bits_fit(bits);
    bits_read_back(bits, j % 64);
    assert(bits[j % 64] == component_bit(ops, x, shift, inverse_scale, j));
}

/// In an exact arithmetic a bit is set if and only if the component lies at least half a scale
/// above the shift.
pub proof fn bit_worth<A: Arithmetic>(
    ops: A,
    x: Seq<Real>,
    shift: Seq<Real>,
    inverse_scale: Real,
    j: int,
    k: int,
    l: int,
    i: int,
    s: nat,
    t: nat,
)
    requires
        exact(ops),
        s + t <= deepest(),
        0 <= j < x.len(),
        worth(x[j], k, s),
        worth(shift[j], l, s),
        worth(inverse_scale, i, t),
        short(k - l),
        short((k - l) * i),
    ensures
        bit_at(
            quantized_vector(ops, x, shift, inverse_scale)[j / 64] as nat,
            (j % 64) as nat,
        ) <==> power_of_two(s + t) <= 2 * ((k - l) * i),
{
    bits_tell_halves(ops, x, shift, inverse_scale, j);
    let gap = ops.difference(x[j], shift[j]);
    let scaled = ops.product(gap, inverse_scale);
    let half = Real { bits: 0x3f00_0000 };
    exact_difference(ops, x[j], shift[j], k, l, s);
    exact_product(ops, gap, inverse_scale, k - l, i, s, t);
    units_worth();
    deeper(half, 1, 1, s + t);
    deeper(scaled, (k - l) * i, s + t, 1);
    assert(power_of_two(1) == 2 * power_of_two(0));
    assert(power_of_two(0) == 1);
    let d = (k - l) * i;
    let two = power_of_two(1) as int;
    assert(d * two == 2 * d) by (nonlinear_arith)
        requires
            two == 2,
    ;
    order_of_worth(
        half,
        scaled,
        power_of_two(s + t) as int,
        d * two,
        s + t + 1,
    );
}

/// Where differences and products keep order, a larger component never loses its bit.
pub proof fn bits_rise_with_components<A: Arithmetic>(
    ops: A,
    x: Seq<Real>,
    y: Seq<Real>,
    shift: Seq<Real>,
    inverse_scale: Real,
    j: int,
)
    requires
        x.len() == y.len(),
        0 <= j < x.len(),
        ops.product(ops.difference(x[j], shift[j]), inverse_scale).le(
            ops.product(ops.difference(y[j], shift[j]), inverse_scale),
        ),
        bit_at(
            quantized_vector(ops, x, shift, inverse_scale)[j / 64] as nat,
            (j % 64) as nat,
        ),
    ensures
        bit_at(
            quantized_vector(ops, y, shift, inverse_scale)[j / 64] as nat,
            (j % 64) as nat,
        ),
{
    bits_tell_halves(ops, x, shift, inverse_scale, j);
    bits_tell_halves(ops, y, shift, inverse_scale, j);
}

/// One for each of the first `n` places at which two numbers have unlike bits.
pub open spec fn unlike_places(a: nat, b: nat, n: nat) -> Seq<int> {
    Seq::new(
        n,
        |t: int|
            if bit_at(a, t as nat) == bit_at(b, t as nat) {
                0int
            } else {
                1int
            },
    )
}

/// One for each of the bits of the first `m` words at which two vectors differ.
pub open spec fn unlike_bits_of(a: Seq<u64>, b: Seq<u64>, m: int) -> Seq<int> {
    Seq::new(
        (64 * m) as nat,
        |j: int|
            if bit_at(a[j / 64] as nat, (j % 64) as nat) == bit_at(
                b[j / 64] as nat,
                (j % 64) as nat,
            ) {
                0int
            } else {
                1int
            },
    )
}

proof fn total_from_front(terms: Seq<int>)
    requires
        terms.len() > 0,
    ensures
        total(terms) == terms[0] + total(terms.drop_first()),
    decreases terms.len(),
{
    let n = terms.len() as int;
    total_of_more(terms, n);
    assert(terms.take(n) =~= terms);
    if n > 1 {
        let front = terms.take(n - 1);
        let rest = terms.drop_first();
        total_from_front(front);
        total_of_more(rest, n - 1);
        assert(rest.take(n - 1) =~= rest);
        assert(rest.take(n - 2) =~= front.drop_first());
    } else {
        assert(terms.take(0) =~= Seq::<int>::empty());
        assert(terms.drop_first() =~= Seq::<int>::empty());
    }
}

/// Sums of lists that follow each other add up.
pub proof fn totals_join(a: Seq<int>, b: Seq<int>)
    ensures
        total(a + b) == total(a) + total(b),
    decreases b.len(),
{
    if b.len() > 0 {
        totals_join(a, b.drop_last());
        assert((a + b).drop_last() =~= a + b.drop_last());
    } else {
        assert(a + b =~= a);
        assert(b =~= Seq::<int>::empty());
    }
}

proof fn halved_bit(a: nat, t: nat)
    ensures
        bit_at(a / 2, t) == bit_at(a, t + 1),
{
    crate::number::power_grows(0, t);
    vstd::arithmetic::div_mod::lemma_div_denominator(a as int, 2, power_of_two(t) as int);
    assert(power_of_two(t + 1) == 2 * power_of_two(t));
}

/// Differing bits are counted one by one.
pub proof fn differing_bits_are_unlike_places(a: nat, b: nat, n: nat)
    ensures
        differing_bits(a, b, n) == total(unlike_places(a, b, n)),
    decreases n,
{
    let terms = unlike_places(a, b, n);
    if n > 0 {
        let rest = unlike_places(a / 2, b / 2, (n - 1) as nat);
        differing_bits_are_unlike_places(a / 2, b / 2, (n - 1) as nat);
        total_from_front(terms);
        assert forall|t: int| 0 <= t < n - 1 implies #[trigger] terms.drop_first()[t] == rest[t] by {
            halved_bit(a, t as nat);
            halved_bit(b, t as nat);
        }
        assert(terms.drop_first() =~= rest);
        assert(power_of_two(0) == 1);
        assert(a / 1 == a) by (nonlinear_arith);
        assert(b / 1 == b) by (nonlinear_arith);
        assert(bit_at(a, 0) == (a % 2 == 1));
        assert(bit_at(b, 0) == (b % 2 == 1));
    } else {
        assert(terms =~= Seq::<int>::empty());
    }
}

/// The distance of two quantized vectors is the number of their bits that differ.
pub proof fn hamming_counts_bits(a: Seq<u64>, b: Seq<u64>, m: int)
    requires
        0 <= m,
    ensures
        hamming_upto(a, b, m) == total(unlike_bits_of(a, b, m)),
        m == a.len() ==> hamming(a, b) == total(unlike_bits_of(a, b, m)),
    decreases m,
{
    let terms = unlike_bits_of(a, b, m);
    if m > 0 {
        let front = unlike_bits_of(a, b, m - 1);
        let last = unlike_places(a[m - 1] as nat, b[m - 1] as nat, 64);
        hamming_counts_bits(a, b, m - 1);
        differing_bits_are_unlike_places(a[m - 1] as nat, b[m - 1] as nat, 64);
        assert forall|j: int| 0 <= j < 64 * m implies #[trigger] terms[j] == (front + last)[j] by {
            if j >= 64 * (m - 1) {
                assert(j / 64 == m - 1);
                assert(j % 64 == j - 64 * (m - 1));
            }
        }
        assert(terms =~= front + last);
        totals_join(front, last);
    } else {
        assert(terms =~= Seq::<int>::empty());
    }
}

} // verus!
