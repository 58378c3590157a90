//! What numbers are worth, and arithmetic that is exact where it can be.
//!
//! A number is worth a whole number over a power of two. An arithmetic is exact if it gives the
//! true sum, difference, product, quotient or root wherever that has few enough binary digits. The
//! arithmetic of binary32 numbers is exact in this sense. Laws that are stated for every exact
//! arithmetic tie the formulas of the library to plain integers.

use crate::arith::Arithmetic;
use crate::centroid_laws::{amount, amount_at, amounts_keep_order, magnitude, magnitude_grows};
use crate::number::{
    count_bits, count_bits_bound, fixed_powers, log2_floor, log2_floor_bounds, power_adds,
    power_grows, power_of_two, Real, SIGN, TWO_BITS,
};
use crate::tq_store::in_order;
use vstd::prelude::*;

verus! {

/// The number is `k` over two to the power `s`.
#[verifier::opaque]
pub open spec fn worth(x: Real, k: int, s: nat) -> bool {
    x.finite() && amount(x) * power_of_two(s) == k * power_of_two(149)
}

/// A whole number of at most 24 binary digits, of either sign.
pub open spec fn short(k: int) -> bool {
    -0x100_0000 <= k <= 0x100_0000
}

/// Most binary digits after the point.
pub open spec fn deepest() -> nat {
    60
}

/// The arithmetic gives the true result wherever it is a short number with not too many digits
/// after the point.
#[verifier::opaque]
pub open spec fn exact<A: Arithmetic>(ops: A) -> bool {
    &&& forall|x: Real, y: Real, k: int, l: int, s: nat|
        #![trigger worth(x, k, s), worth(y, l, s), ops.sum(x, y)]
        worth(x, k, s) && worth(y, l, s) && short(k + l) && s <= deepest() ==> worth(
            ops.sum(x, y),
            k + l,
            s,
        )
    &&& forall|x: Real, y: Real, k: int, l: int, s: nat|
        #![trigger worth(x, k, s), worth(y, l, s), ops.difference(x, y)]
        worth(x, k, s) && worth(y, l, s) && short(k - l) && s <= deepest() ==> worth(
            ops.difference(x, y),
            k - l,
            s,
        )
    &&& forall|x: Real, y: Real, k: int, l: int, s: nat, t: nat|
        #![trigger worth(x, k, s), worth(y, l, t), ops.product(x, y)]
        worth(x, k, s) && worth(y, l, t) && short(k * l) && s + t <= deepest() ==> worth(
            ops.product(x, y),
            k * l,
            s + t,
        )
    &&& forall|x: Real, y: Real, k: int, l: int, s: nat, t: nat, q: int, u: nat|
        #![trigger worth(x, k, s), worth(y, l, t), worth(ops.quotient(x, y), q, u)]
        worth(x, k, s) && worth(y, l, t) && l != 0 && short(q) && u <= deepest() && q * l
            * power_of_two(s) == k * power_of_two(t + u) ==> worth(ops.quotient(x, y), q, u)
    &&& forall|x: Real, q: int, u: nat|
        #![trigger worth(ops.root(x), q, u)]
        worth(x, q * q, 2 * u) && 0 <= q && short(q) && u <= deepest() ==> worth(
            ops.root(x),
            q,
            u,
        )
}

/// A sum of whole numbers.
pub open spec fn total(terms: Seq<int>) -> int {
    terms.fold_left(0, |sum: int, term: int| sum + term)
}

/// The numbers of a list are worth the given ones over two to the power `s`.
pub open spec fn all_worth(list: Seq<Real>, ks: Seq<int>, s: nat) -> bool {
    &&& list.len() == ks.len()
    &&& forall|i: int| 0 <= i < list.len() ==> worth(#[trigger] list[i], ks[i], s)
}

/// A whole number without its sign.
pub open spec fn size(k: int) -> int {
    if k < 0 {
        -k
    } else {
        k
    }
}

/// The terms stay short however far they are summed.
pub open spec fn stays_short(terms: Seq<int>) -> bool {
    total(terms.map_values(|k: int| size(k))) <= 0x100_0000
}

pub proof fn exact_sum<A: Arithmetic>(ops: A, x: Real, y: Real, k: int, l: int, s: nat)
    requires
        exact(ops),
        worth(x, k, s),
        worth(y, l, s),
        short(k + l),
        s <= deepest(),
    ensures
        worth(ops.sum(x, y), k + l, s),
{
    reveal(exact);
}

pub proof fn exact_difference<A: Arithmetic>(ops: A, x: Real, y: Real, k: int, l: int, s: nat)
    requires
        exact(ops),
        worth(x, k, s),
        worth(y, l, s),
        short(k - l),
        s <= deepest(),
    ensures
        worth(ops.difference(x, y), k - l, s),
{
    reveal(exact);
}

pub proof fn exact_product<A: Arithmetic>(
    ops: A,
    x: Real,
    y: Real,
    k: int,
    l: int,
    s: nat,
    t: nat,
)
    requires
        exact(ops),
        worth(x, k, s),
        worth(y, l, t),
        short(k * l),
        s + t <= deepest(),
    ensures
        worth(ops.product(x, y), k * l, s + t),
{
    reveal(exact);
}

pub proof fn exact_quotient<A: Arithmetic>(
    ops: A,
    x: Real,
    y: Real,
    k: int,
    l: int,
    s: nat,
    t: nat,
    q: int,
    u: nat,
)
    requires
        exact(ops),
        worth(x, k, s),
        worth(y, l, t),
        l != 0,
        short(q),
        u <= deepest(),
        q * l * power_of_two(s) == k * power_of_two(t + u),
    ensures
        worth(ops.quotient(x, y), q, u),
{
    reveal(exact);
}

pub proof fn exact_root<A: Arithmetic>(ops: A, x: Real, q: int, u: nat)
    requires
        exact(ops),
        worth(x, q * q, 2 * u),
        0 <= q,
        short(q),
        u <= deepest(),
    ensures
        worth(ops.root(x), q, u),
{
    reveal(exact);
}

/// Zero is worth nothing at any precision.
pub proof fn zero_worth(s: nat)
    ensures
        worth(Real::spec_zero(), 0, s),
{
    reveal(worth);
    assert(magnitude(0) == 0);
    assert(0 * power_of_two(s) == 0) by (nonlinear_arith);
    assert(0 * power_of_two(149) == 0) by (nonlinear_arith);
}

proof fn power_encoded(bits: nat, e: nat)
    requires
        bits == (127 + e) * 0x80_0000,
        e <= 1,
    ensures
        magnitude(bits) == power_of_two(149 + e),
{
    fixed_powers();
    power_adds(23, 126 + e);
    assert(bits / 0x80_0000 == 127 + e);
    assert(bits % 0x80_0000 == 0);
}

/// One, two and a half are worth what their names say.
pub proof fn units_worth()
    ensures
        worth(Real::spec_one(), 1, 0),
        worth(Real { bits: TWO_BITS }, 2, 0),
        worth(Real { bits: 0x3f00_0000 }, 1, 1),
{
    reveal(worth);
    power_encoded(0x3f80_0000, 0);
    power_encoded(0x4000_0000, 1);
    assert(power_of_two(150) == 2 * power_of_two(149));
    assert(power_of_two(0) == 1);
    assert(power_of_two(1) == 2) by {
        assert(power_of_two(1) == 2 * power_of_two(0));
    }
    fixed_powers();
    power_adds(23, 125);
    assert(0x3f00_0000int / 0x80_0000 == 126);
    assert(magnitude(0x3f00_0000) == power_of_two(148));
    assert(power_of_two(149) == 2 * power_of_two(148));
}

proof fn digits_of_count(h: nat, e: nat)
    requires
        e <= 23,
        power_of_two(e) <= h < 2 * power_of_two(e),
    ensures
        0x80_0000 <= h * power_of_two((23 - e) as nat) < 0x100_0000,
        (h * power_of_two((23 - e) as nat)) * power_of_two(126 + e) == h * power_of_two(149),
{
    let p = power_of_two(e);
    let q = power_of_two((23 - e) as nat);
    power_adds(e, (23 - e) as nat);
    power_adds((23 - e) as nat, 126 + e);
    fixed_powers();
    power_grows(0, (23 - e) as nat);
    assert(0x80_0000 <= h * q < 0x100_0000) by (nonlinear_arith)
        requires
            p * q == 0x80_0000,
            p <= h < 2 * p,
            q >= 1,
    ;
    let r = power_of_two(126 + e);
    let w = power_of_two(149);
    assert((h * q) * r == h * w) by (nonlinear_arith)
        requires
            q * r == w,
    ;
}

/// A count of at most 24 binary digits becomes a number that is worth the count.
pub proof fn count_worth(h: nat)
    requires
        h <= 0x100_0000,
    ensures
        worth(Real { bits: count_bits(h) as u32 }, h as int, 0),
{
    reveal(worth);
    fixed_powers();
    assert(power_of_two(0) == 1);
    if h == 0 {
        assert(magnitude(0) == 0);
    } else {
        log2_floor_bounds(h);
        let e = log2_floor(h);
        if e >= 25 {
            power_grows(25, e);
            assert(power_of_two(25) == 2 * power_of_two(24));
        }
        let bits = count_bits(h);
        if e <= 23 {
            digits_of_count(h, e);
            let m = h * power_of_two((23 - e) as nat);
            assert(bits == (e + 126) * 0x80_0000 + m);
            assert(bits / 0x80_0000 == e + 127);
            assert(bits % 0x80_0000 == m - 0x80_0000);
            assert(magnitude(bits) == m * power_of_two(126 + e));
        } else {
            assert(h == 0x100_0000);
            assert(power_of_two(1) == 2 * power_of_two(0));
            assert(bits == 151 * 0x80_0000);
            assert(bits / 0x80_0000 == 151);
            power_adds(24, 149);
            power_adds(23, 150);
        }
    }
}

/// A number can be read with more digits after the point.
pub proof fn deeper(x: Real, k: int, s: nat, d: nat)
    requires
        worth(x, k, s),
    ensures
        worth(x, k * power_of_two(d), s + d),
{
    reveal(worth);
    power_adds(s, d);
    let a = amount(x);
    let p = power_of_two(s) as int;
    let q = power_of_two(d) as int;
    let w = power_of_two(149) as int;
    assert(a * (p * q) == (k * q) * w) by (nonlinear_arith)
        requires
            a * p == k * w,
    ;
}

proof fn magnitude_grows_strictly(a: nat, b: nat)
    requires
        a < b,
    ensures
        magnitude(a) < magnitude(b),
{
    magnitude_grows(a + 1, b);
    let e = a / 0x80_0000;
    let f = a % 0x80_0000;
    if f + 1 < 0x80_0000 {
        assert((a + 1) / 0x80_0000 == e);
        assert((a + 1) % 0x80_0000 == f + 1);
        if e > 0 {
            let p = power_of_two((e - 1) as nat);
            power_grows(0, (e - 1) as nat);
            assert((0x80_0000 + f) * p < (0x80_0000 + (f + 1)) * p) by (nonlinear_arith)
                requires
                    p >= 1,
            ;
        }
    } else {
        assert((a + 1) / 0x80_0000 == e + 1);
        assert((a + 1) % 0x80_0000 == 0);
        power_grows(0, e);
        if e > 0 {
            let p = power_of_two((e - 1) as nat);
            power_grows(0, (e - 1) as nat);
            assert(power_of_two(e) == 2 * p);
            assert((0x80_0000 + f) * p < 0x80_0000 * (2 * p)) by (nonlinear_arith)
                requires
                    p >= 1,
                    f < 0x80_0000,
            ;
        } else {
            assert(power_of_two(0) == 1);
        }
    }
}

/// What numbers amount to goes strictly by their numeric order.
pub proof fn amounts_keep_strict_order(low: int, high: int)
    requires
        low < high,
    ensures
        amount_at(low) < amount_at(high),
{
    if low >= SIGN {
        magnitude_grows_strictly((low - SIGN) as nat, (high - SIGN) as nat);
    } else if high < SIGN {
        magnitude_grows_strictly((SIGN - high) as nat, (SIGN - low) as nat);
    } else {
        magnitude_grows_strictly(0, (SIGN - low) as nat);
    }
}

/// Numbers compare as what they are worth.
pub proof fn order_of_worth(x: Real, y: Real, k: int, l: int, s: nat)
    requires
        worth(x, k, s),
        worth(y, l, s),
    ensures
        x.lt(y) <==> k < l,
        x.le(y) <==> k <= l,
        !x.nan(),
        !y.nan(),
{
    reveal(worth);
    let a = amount(x);
    let b = amount(y);
    let p = power_of_two(s) as int;
    let w = power_of_two(149) as int;
    power_grows(0, s);
    power_grows(0, 149);
    if x.rank() < y.rank() {
        amounts_keep_strict_order(x.rank(), y.rank());
        assert(k < l) by (nonlinear_arith)
            requires
                a < b,
                a * p == k * w,
                b * p == l * w,
                p >= 1,
                w >= 1,
        ;
    } else if y.rank() < x.rank() {
        amounts_keep_strict_order(y.rank(), x.rank());
        assert(l < k) by (nonlinear_arith)
            requires
                b < a,
                a * p == k * w,
                b * p == l * w,
                p >= 1,
                w >= 1,
        ;
    } else {
        assert(k == l) by (nonlinear_arith)
            requires
                a == b,
                a * p == k * w,
                b * p == l * w,
                p >= 1,
                w >= 1,
        ;
    }
}

/// A short number lies below the largest one.
pub proof fn short_below_max(x: Real, k: int, s: nat)
    requires
        worth(x, k, s),
        short(k),
    ensures
        x.lt(Real::spec_max()),
{
    reveal(worth);
    let top = Real::spec_max();
    fixed_powers();
    assert(top.bits == 0x7f7f_ffff);
    assert(magnitude(0x7f7f_ffff) == 0xff_ffff * power_of_two(253));
    power_grows(173, 253);
    power_adds(24, 149);
    if !x.lt(top) {
        amounts_keep_order(top.rank(), x.rank());
        power_grows(0, s);
        let a = amount(x);
        let p = power_of_two(s) as int;
        let w = power_of_two(149) as int;
        let b = power_of_two(253) as int;
        assert(false) by (nonlinear_arith)
            requires
                a * p == k * w,
                k <= 0x100_0000,
                0x100_0000 * w <= b,
                a >= 0xff_ffff * b,
                p >= 1,
                w >= 1,
        ;
    }
}

/// A number with the other sign is worth the opposite.
pub proof fn negation_worth(x: Real, k: int, s: nat)
    requires
        worth(x, k, s),
    ensures
        worth(x.negation(), -k, s),
{
    reveal(worth);
    let a = amount(x);
    let p = power_of_two(s) as int;
    let w = power_of_two(149) as int;
    assert(magnitude(0) == 0);
    assert(amount(x.negation()) == -a);
    assert((-a) * p == (-k) * w) by (nonlinear_arith)
        requires
            a * p == k * w,
    ;
}

/// One more term.
pub proof fn total_of_more(terms: Seq<int>, m: int)
    requires
        0 < m <= terms.len(),
    ensures
        total(terms.take(m)) == total(terms.take(m - 1)) + terms[m - 1],
{
    assert(terms.take(m).drop_last() =~= terms.take(m - 1));
}

proof fn total_within(terms: Seq<int>, m: int)
    requires
        0 <= m <= terms.len(),
    ensures
        size(total(terms.take(m))) <= total(terms.take(m).map_values(|k: int| size(k))),
    decreases m,
{
    let sizes = terms.map_values(|k: int| size(k));
    assert(terms.take(m).map_values(|k: int| size(k)) =~= sizes.take(m));
    if m > 0 {
        total_within(terms, m - 1);
        assert(terms.take(m - 1).map_values(|k: int| size(k)) =~= sizes.take(m - 1));
        total_of_more(terms, m);
        total_of_more(sizes, m);
    }
}

proof fn total_grows(sizes: Seq<int>, m: int)
    requires
        0 <= m <= sizes.len(),
        forall|i: int| 0 <= i < sizes.len() ==> 0 <= #[trigger] sizes[i],
    ensures
        0 <= total(sizes.take(m)) <= total(sizes),
    decreases sizes.len() - m,
{
    if m < sizes.len() {
        total_grows(sizes, m + 1);
        total_of_more(sizes, m + 1);
        total_not_negative(sizes, m);
    } else {
        assert(sizes.take(m) =~= sizes);
        total_not_negative(sizes, m);
    }
}

pub(crate) proof fn total_not_negative(sizes: Seq<int>, m: int)
    requires
        0 <= m <= sizes.len(),
        forall|i: int| 0 <= i < sizes.len() ==> 0 <= #[trigger] sizes[i],
    ensures
        0 <= total(sizes.take(m)),
    decreases m,
{
    if m > 0 {
        total_not_negative(sizes, m - 1);
        total_of_more(sizes, m);
    }
}

/// Partial sums of terms that stay short are short, and so is every term.
pub proof fn partial_sums_short(terms: Seq<int>, m: int)
    requires
        stays_short(terms),
        0 <= m <= terms.len(),
    ensures
        short(total(terms.take(m))),
        m < terms.len() ==> short(terms[m]),
{
    let sizes = terms.map_values(|k: int| size(k));
    total_within(terms, m);
    assert(terms.take(m).map_values(|k: int| size(k)) =~= sizes.take(m));
    total_grows(sizes, m);
    if m < terms.len() {
        total_grows(sizes, m + 1);
        total_of_more(sizes, m + 1);
        assert(sizes[m] == size(terms[m]));
    }
}

/// In an exact arithmetic, terms summed in order are worth their sum.
pub proof fn sum_in_order<A: Arithmetic>(
    ops: A,
    term: spec_fn(int) -> Real,
    ks: Seq<int>,
    s: nat,
    m: int,
)
    requires
        exact(ops),
        s <= deepest(),
        0 <= m <= ks.len(),
        stays_short(ks),
        forall|i: int| 0 <= i < m ==> worth(#[trigger] term(i), ks[i], s),
    ensures
        worth(in_order(ops, term, m), total(ks.take(m)), s),
    decreases m,
{
    if m > 0 {
        sum_in_order(ops, term, ks, s, m - 1);
        total_of_more(ks, m);
        partial_sums_short(ks, m);
        assert(worth(term(m - 1), ks[m - 1], s));
        exact_sum(
            ops,
            in_order(ops, term, m - 1),
            term(m - 1),
            total(ks.take(m - 1)),
            ks[m - 1],
            s,
        );
    } else {
        zero_worth(s);
        assert(ks.take(0) =~= Seq::<int>::empty());
    }
}

proof fn rounded_digits(e: nat, m: nat)
    requires
        24 <= e <= 32,
        0x80_0000 <= m <= 0x100_0000,
    ensures
        magnitude(((e + 126) * 0x80_0000 + m) as nat) == m * power_of_two(126 + e),
{
    let bits = ((e + 126) * 0x80_0000 + m) as nat;
    if m < 0x100_0000 {
        assert(bits / 0x80_0000 == e + 127);
        assert(bits % 0x80_0000 == m - 0x80_0000);
    } else {
        assert(bits / 0x80_0000 == e + 128);
        assert(bits % 0x80_0000 == 0);
        let p = power_of_two(126 + e);
        assert(power_of_two(127 + e) == 2 * p);
        assert(0x80_0000 * (2 * p) == 0x100_0000 * p) by (nonlinear_arith);
    }
}

/// A count of more binary digits becomes the nearest number of 24 digits: it is off by at most half
/// of the last digit's unit, and where two are equally near, the one whose last digit is even.
pub proof fn count_rounds(h: nat) -> (digits: nat)
    requires
        0x100_0000 <= h <= u32::MAX,
    ensures
        ({
            let unit = power_of_two((log2_floor(h) - 23) as nat);
            let off = digits * unit - h;
            &&& worth(Real { bits: count_bits(h) as u32 }, (digits * unit) as int, 0)
            &&& digits <= 0x100_0000
            &&& -(unit as int) <= 2 * off <= unit
            &&& (2 * off == unit || 2 * off == -(unit as int)) ==> digits % 2 == 0
        }),
{
    reveal(worth);
    fixed_powers();
    log2_floor_bounds(h);
    count_bits_bound(h);
    let e = log2_floor(h);
    if e <= 23 {
        power_grows(e, 23);
    }
    if e >= 33 {
        power_grows(33, e);
        assert(power_of_two(33) == 2 * power_of_two(32));
    }
    let unit = power_of_two((e - 23) as nat);
    power_grows(0, (e - 23) as nat);
    power_adds(23, (e - 23) as nat);
    let q = h / unit;
    let rem = h % unit;
    vstd::arithmetic::div_mod::lemma_fundamental_div_mod(h as int, unit as int);
    vstd::arithmetic::div_mod::lemma_mod_bound(h as int, unit as int);
    assert(0x80_0000 <= q < 0x100_0000) by (nonlinear_arith)
        requires
            0x80_0000 * unit <= h < 2 * (0x80_0000 * unit),
            h == unit * q + rem,
            0 <= rem < unit,
    ;
    let up: nat = if 2 * rem > unit || (2 * rem == unit && q % 2 == 1) {
        1
    } else {
        0
    };
    let digits = q + up;
    let bits = count_bits(h);
    assert(bits == (e + 126) * 0x80_0000 + digits);
    rounded_digits(e, digits);
    power_adds((e - 23) as nat, 149);
    let w = power_of_two(149);
    let p = power_of_two(126 + e);
    assert(digits * p == (digits * unit) * w) by (nonlinear_arith)
        requires
            unit * w == p,
    ;
    assert(power_of_two(0) == 1);
    let off = digits * unit - h;
    assert(off == up * unit - rem) by (nonlinear_arith)
        requires
            off == digits * unit - h,
            digits == q + up,
            h == unit * q + rem,
    ;
    if up == 1 {
        assert(up * unit == unit) by (nonlinear_arith)
            requires
                up == 1,
        ;
    } else {
        assert(up * unit == 0) by (nonlinear_arith)
            requires
                up == 0,
        ;
    }
    digits
}

} // verus!
