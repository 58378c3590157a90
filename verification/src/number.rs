//! Single-precision numbers held as their bit patterns.
//!
//! The library never computes with fractions: it orders distances, keeps them and hands them on.
//! [`Real`] therefore carries the IEEE 754 binary32 encoding of a number and offers exactly the
//! comparisons of that format. Arithmetic is left to the callers, which pass it in as functions.

use vstd::prelude::*;

verus! {

/// Encoding of zero.
pub const ZERO_BITS: u32 = 0;

/// Encoding of one.
pub const ONE_BITS: u32 = 0x3f80_0000;

/// Encoding of two.
pub const TWO_BITS: u32 = 0x4000_0000;

/// Encoding of the smallest positive normal number.
pub const MIN_POSITIVE_BITS: u32 = 0x0080_0000;

/// Encoding of the largest finite number.
pub const MAX_BITS: u32 = 0x7f7f_ffff;

/// Encoding of positive infinity.
pub const INFINITY_BITS: u32 = 0x7f80_0000;

/// Encoding of negative infinity.
pub const NEG_INFINITY_BITS: u32 = 0xff80_0000;

/// Position of the sign bit.
pub const SIGN: u32 = 0x8000_0000;

/// Two to the power `n`.
pub open spec fn power_of_two(n: nat) -> nat
    decreases n,
{
    if n == 0 {
        1
    } else {
        2 * power_of_two((n - 1) as nat)
    }
}

/// Bit `t` of a number, counted from the lowest.
pub open spec fn bit_at(x: nat, t: nat) -> bool {
    x / power_of_two(t) % 2 == 1
}

/// The powers of two that the encoding of numbers rests on.
pub proof fn fixed_powers()
    ensures
        power_of_two(23) == 0x80_0000,
        power_of_two(24) == 0x100_0000,
        power_of_two(32) == 0x1_0000_0000,
{
    reveal_with_fuel(power_of_two, 33);
}

/// A larger exponent gives a larger power.
pub proof fn power_grows(a: nat, b: nat)
    requires
        a <= b,
    ensures
        1 <= power_of_two(a) <= power_of_two(b),
    decreases b,
{
    if b > 0 {
        if a < b {
            power_grows(a, (b - 1) as nat);
        } else {
            power_grows((a - 1) as nat, (b - 1) as nat);
        }
    }
}

/// Largest `e` with two to the power `e` at most `h`; zero for zero.
pub open spec fn log2_floor(h: nat) -> nat
    decreases h,
{
    if h <= 1 {
        0
    } else {
        1 + log2_floor(h / 2)
    }
}

/// The count `h` as a number: exactly where 24 binary digits suffice, else rounded to the nearest
/// number, ties to the even one.
pub open spec fn count_bits(h: nat) -> nat {
    let e = log2_floor(h);
    if h == 0 {
        0
    } else if e <= 23 {
        ((e + 127) * 0x80_0000 + h * power_of_two((23 - e) as nat) - 0x80_0000) as nat
    } else {
        let unit = power_of_two((e - 23) as nat);
        let q = h / unit;
        let twice = 2 * (h % unit);
        let up: nat = if twice > unit || (twice == unit && q % 2 == 1) { 1 } else { 0 };
        ((e + 127) * 0x80_0000 + q - 0x80_0000 + up) as nat
    }
}

pub(crate) proof fn log2_floor_bounds(h: nat)
    requires
        h >= 1,
    ensures
        power_of_two(log2_floor(h)) <= h < 2 * power_of_two(log2_floor(h)),
    decreases h,
{
    if h > 1 {
        log2_floor_bounds(h / 2);
    }
}

/// A binary32 number, represented by its encoding. `==` compares encodings; the numeric
/// comparisons are the methods below.
#[derive(Clone, Copy, Debug, PartialEq, Eq, Structural)]
pub struct Real {
    pub bits: u32,
}

impl Real {
    /// Whether the encoding denotes no number.
    pub open spec fn nan(self) -> bool {
        self.bits as int % SIGN as int > INFINITY_BITS
    }

    /// Whether the encoding denotes a finite number.
    pub open spec fn finite(self) -> bool {
        self.bits as int % (SIGN as int) < INFINITY_BITS
    }

    /// Place of a number in the numeric order: the two zeros share one rank, and one number is
    /// smaller than another exactly if its rank is.
    pub open spec fn rank(self) -> int {
        if self.bits < SIGN {
            self.bits + SIGN
        } else {
            0x1_0000_0000 - self.bits
        }
    }

    /// Numeric `self < other`; false as soon as one side is not a number.
    pub open spec fn lt(self, other: Real) -> bool {
        !self.nan() && !other.nan() && self.rank() < other.rank()
    }

    /// Numeric `self <= other`; false as soon as one side is not a number.
    pub open spec fn le(self, other: Real) -> bool {
        !self.nan() && !other.nan() && self.rank() <= other.rank()
    }

    /// The number zero.
    pub open spec fn spec_zero() -> Real {
        Real { bits: ZERO_BITS }
    }

    /// The number one.
    pub open spec fn spec_one() -> Real {
        Real { bits: ONE_BITS }
    }

    /// The largest finite number.
    pub open spec fn spec_max() -> Real {
        Real { bits: MAX_BITS }
    }

    /// Negative infinity.
    pub open spec fn spec_neg_infinity() -> Real {
        Real { bits: NEG_INFINITY_BITS }
    }

    /// The number with the given encoding.
    pub fn from_bits(bits: u32) -> (r: Real)
        ensures
            r.bits == bits,
    {
        Real { bits }
    }

    /// The encoding of the number.
    pub fn to_bits(self) -> (r: u32)
        ensures
            r == self.bits,
    {
        self.bits
    }

    /// Zero.
    pub fn zero() -> (r: Real)
        ensures
            r == Real::spec_zero(),
    {
        Real { bits: ZERO_BITS }
    }

    /// One.
    pub fn one() -> (r: Real)
        ensures
            r == Real::spec_one(),
    {
        Real { bits: ONE_BITS }
    }

    /// The largest finite number.
    pub fn max_finite() -> (r: Real)
        ensures
            r == Real::spec_max(),
    {
        Real { bits: MAX_BITS }
    }

    /// Negative infinity.
    pub fn neg_infinity() -> (r: Real)
        ensures
            r == Real::spec_neg_infinity(),
    {
        Real { bits: NEG_INFINITY_BITS }
    }

    /// Whether the encoding denotes no number.
    pub fn is_nan(self) -> (r: bool)
        ensures
            r == self.nan(),
    {
        self.bits % SIGN > INFINITY_BITS
    }

    /// Whether the encoding denotes a finite number.
    pub fn is_finite(self) -> (r: bool)
        ensures
            r == self.finite(),
    {
        self.bits % SIGN < INFINITY_BITS
    }

    /// Place of the number in the numeric order.
    pub fn order_rank(self) -> (r: u32)
        ensures
            r == self.rank(),
    {
        if self.bits < SIGN {
            self.bits + SIGN
        } else {
            (0x1_0000_0000u64 - self.bits as u64) as u32
        }
    }

    /// Numeric `self < other`.
    pub fn is_less(self, other: Real) -> (r: bool)
        ensures
            r == self.lt(other),
    {
        !self.is_nan() && !other.is_nan() && self.order_rank() < other.order_rank()
    }

    /// Numeric `self <= other`.
    pub fn is_at_most(self, other: Real) -> (r: bool)
        ensures
            r == self.le(other),
    {
        !self.is_nan() && !other.is_nan() && self.order_rank() <= other.order_rank()
    }

    /// Whether the number is zero, of either sign.
    pub open spec fn vanishes(self) -> bool {
        self.bits as int % SIGN as int == 0
    }

    /// Whether the number is zero, of either sign.
    pub fn is_zero(self) -> (r: bool)
        ensures
            r == self.vanishes(),
    {
        self.bits % SIGN == 0
    }

    /// The number with the other sign.
    pub open spec fn negation(self) -> Real {
        if self.bits < SIGN {
            Real { bits: (self.bits + SIGN) as u32 }
        } else {
            Real { bits: (self.bits - SIGN) as u32 }
        }
    }

    /// Changes the sign.
    pub fn negated(self) -> (r: Real)
        ensures
            r == self.negation(),
    {
        if self.bits < SIGN {
            Real { bits: self.bits + SIGN }
        } else {
            Real { bits: self.bits - SIGN }
        }
    }

    /// The sixteen high bits of the encoding: the number in the brain-float format, cut off.
    pub open spec fn coarse(self) -> u16 {
        (self.bits / 0x1_0000) as u16
    }

    /// Cuts the number down to the brain-float format.
    pub fn to_coarse(self) -> (r: u16)
        ensures
            r == self.coarse(),
    {
        (self.bits / 0x1_0000) as u16
    }

    /// The number whose high bits are given and whose low bits are clear.
    pub open spec fn widened(coarse: u16) -> Real {
        Real { bits: (coarse * 0x1_0000) as u32 }
    }

    /// Widens a brain-float number.
    pub fn from_coarse(coarse: u16) -> (r: Real)
        ensures
            r == Real::widened(coarse),
    {
        Real { bits: coarse as u32 * 0x1_0000 }
    }
}

/// Exponents add up.
pub proof fn power_adds(a: nat, b: nat)
    ensures
        power_of_two(a) * power_of_two(b) == power_of_two(a + b),
    decreases b,
{
    let x = power_of_two(a);
    if b > 0 {
        let c = (b - 1) as nat;
        power_adds(a, c);
        let y = power_of_two(c);
        let z = power_of_two(a + c);
        assert(power_of_two(b) == 2 * y);
        assert(power_of_two(a + b) == 2 * z) by {
            assert((a + b - 1) as nat == a + c);
        }
        assert(x * (2 * y) == 2 * z) by (nonlinear_arith)
            requires
                x * y == z,
        ;
    } else {
        assert(power_of_two(b) == 1);
        assert(x * 1 == x) by (nonlinear_arith);
    }
}

/// Computes two to the power `n`.
fn power(n: u32) -> (r: u64)
    requires
        n <= 23,
    ensures
        r == power_of_two(n as nat),
        r >= 1,
{
    let mut r: u64 = 1;
    let mut i: u32 = 0;
    proof {
        fixed_powers();
    }
    while i < n
        invariant
            i <= n <= 23,
            r == power_of_two(i as nat),
            r >= 1,
            power_of_two(23) == 0x80_0000,
        decreases n - i,
    {
        proof {
            power_grows(i as nat, 23);
        }
        r = 2 * r;
        i += 1;
    }
    r
}

/// Computes the logarithm of `h`, rounded down.
pub fn floor_log2(h: u32) -> (e: u32)
    requires
        h >= 1,
    ensures
        e == log2_floor(h as nat),
        e <= 31,
        power_of_two(e as nat) <= h < 2 * power_of_two(e as nat),
{
    let mut e: u32 = 0;
    let mut rest: u32 = h;
    proof {
        log2_floor_bounds(h as nat);
        if log2_floor(h as nat) >= 32 {
            power_grows(32, log2_floor(h as nat));
            fixed_powers();
        }
    }
    while rest > 1
        invariant
            1 <= rest <= h,
            e + log2_floor(rest as nat) == log2_floor(h as nat),
            log2_floor(h as nat) <= 31,
        decreases rest,
    {
        rest = rest / 2;
        e += 1;
    }
    e
}

/// Encodes a count of up to 24 binary digits.
fn encode_short(h: u32, e: u32) -> (bits: u32)
    requires
        h >= 1,
        e == log2_floor(h as nat),
        e <= 23,
        power_of_two(e as nat) <= h < 2 * power_of_two(e as nat),
    ensures
        bits == count_bits(h as nat),
        bits <= 0x4b80_0000,
{
    let scale: u64 = power(23 - e);
    proof {
        scaled_bounds(h as nat, e as nat);
    }
    let scaled: u64 = h as u64 * scale;
    ((e as u64 + 127) * 0x80_0000 + (scaled - 0x80_0000)) as u32
}

/// Encodes a count of more than 24 binary digits.
fn encode_long(h: u32, e: u32) -> (bits: u32)
    requires
        h >= 1,
        e == log2_floor(h as nat),
        23 < e <= 31,
        power_of_two(e as nat) <= h < 2 * power_of_two(e as nat),
    ensures
        bits == count_bits(h as nat),
        bits <= 0x4f80_0000,
{
    let unit: u64 = power(e - 23);
    proof {
        fixed_powers();
        power_adds((e - 23) as nat, 23);
        quotient_bounds(h as int, unit as int);
    }
    let q: u64 = h as u64 / unit;
    let rest: u64 = h as u64 % unit;
    assert(rest < unit);
    let twice: u64 = 2 * rest;
    let up: u64 = if twice > unit || (twice == unit && q % 2 == 1) { 1 } else { 0 };
    ((e as u64 + 127) * 0x80_0000 + (q - 0x80_0000) + up) as u32
}

/// Turns a count into a number.
pub fn from_count(h: u32) -> (r: Real)
    ensures
        r.bits == count_bits(h as nat),
        r.lt(Real::spec_max()),
        Real::spec_zero().le(r),
{
    if h == 0 {
        return Real::zero();
    }
    let e: u32 = floor_log2(h);
    let bits: u32 = if e <= 23 {
        encode_short(h, e)
    } else {
        encode_long(h, e)
    };
    Real { bits }
}

/// Counts of up to 24 binary digits keep their order, strictly.
pub proof fn counts_keep_order(a: nat, b: nat)
    requires
        a < b < 0x100_0000,
    ensures
        count_bits(a) < count_bits(b),
{
    log2_floor_bounds(b);
    fixed_powers();
    let eb = log2_floor(b);
    if eb >= 24 {
        power_grows(24, eb);
    }
    scaled_bounds(b, eb);
    if a > 0 {
        log2_floor_bounds(a);
        let ea = log2_floor(a);
        if ea > eb {
            power_grows((eb + 1) as nat, ea);
            assert(power_of_two((eb + 1) as nat) == 2 * power_of_two(eb));
        }
        scaled_bounds(a, ea);
        if ea == eb {
            let scale = power_of_two((23 - eb) as nat);
            power_grows(0, (23 - eb) as nat);
            assert(a * scale < b * scale) by (nonlinear_arith)
                requires
                    a < b,
                    scale >= 1,
            ;
        }
    }
}

/// No count is anywhere near the largest number.
pub proof fn count_bits_bound(h: nat)
    requires
        h <= u32::MAX,
    ensures
        count_bits(h) <= 0x4f80_0000,
{
    if h > 0 {
        log2_floor_bounds(h);
        let e = log2_floor(h);
        if e >= 32 {
            power_grows(32, e);
            fixed_powers();
        }
        if e <= 23 {
            scaled_bounds(h, e);
        } else {
            fixed_powers();
            power_adds((e - 23) as nat, 23);
            power_grows(0, (e - 23) as nat);
            quotient_bounds(h as int, power_of_two((e - 23) as nat) as int);
        }
    }
}

proof fn scaled_bounds(h: nat, e: nat)
    requires
        e <= 23,
        power_of_two(e) <= h < 2 * power_of_two(e),
    ensures
        0x80_0000 <= h * power_of_two((23 - e) as nat) < 0x100_0000,
{
    fixed_powers();
    power_adds(e, (23 - e) as nat);
    power_grows(0, (23 - e) as nat);
    let p = power_of_two(e);
    let scale = power_of_two((23 - e) as nat);
    assert(p * scale <= h * scale) by (nonlinear_arith)
        requires
            p <= h,
            0 <= scale,
    ;
    assert(h * scale < 2 * (p * scale)) by (nonlinear_arith)
        requires
            h < 2 * p,
            1 <= scale,
    ;
}

proof fn quotient_bounds(h: int, unit: int)
    requires
        1 <= unit,
        unit * 0x80_0000 <= h < 2 * (unit * 0x80_0000),
    ensures
        0x80_0000 <= h / unit < 0x100_0000,
{
    assert(0x80_0000 <= h / unit) by (nonlinear_arith)
        requires
            1 <= unit,
            unit * 0x80_0000 <= h,
    ;
    assert(h / unit < 0x100_0000) by (nonlinear_arith)
        requires
            1 <= unit,
            h < unit * 0x100_0000,
    ;
}

/// Cutting down keeps the order of the numbers that are not negative: a nearer one never becomes
/// farther than one that was at least as far.
pub proof fn coarse_keeps_order(a: Real, b: Real)
    requires
        a.bits < SIGN,
        b.bits < SIGN,
        a.le(b),
    ensures
        a.coarse() <= b.coarse(),
{
}

/// Widening what was cut down never enlarges a number that is not negative, and cutting it down
/// again changes nothing.
pub proof fn widened_below(a: Real)
    requires
        a.bits < SIGN,
        !a.nan(),
    ensures
        Real::widened(a.coarse()).le(a),
        Real::widened(a.coarse()).coarse() == a.coarse(),
{
}

/// Changing the sign turns the order around, and twice changes nothing.
pub proof fn negation_reverses(a: Real, b: Real)
    ensures
        a.lt(b) == b.negation().lt(a.negation()),
        a.negation().negation() == a,
{
}

/// The numeric order is total on numbers: of two numbers one is below the other, unless they are
/// equal in rank.
pub proof fn order_total(a: Real, b: Real)
    requires
        !a.nan(),
        !b.nan(),
    ensures
        a.lt(b) || b.lt(a) || a.rank() == b.rank(),
        a.le(b) == !b.lt(a),
{
}

} // verus!
