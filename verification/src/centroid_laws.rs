//! The code of a value belongs to the nearest centroid.

use crate::centroids::{
    ascends, code_separates, codes_keep_order, fixed_boundaries, fixed_centroids,
    fixed_tables_law, passed, LloydMaxCentroids,
};
use crate::number::{power_adds, power_grows, power_of_two, Real, SIGN};
use vstd::prelude::*;

verus! {

/// The number with the encoding `m`, sign aside, in units of the smallest positive number.
pub open spec fn magnitude(m: nat) -> nat {
    let exponent = m / 0x80_0000;
    let fraction = m % 0x80_0000;
    if exponent == 0 {
        fraction
    } else {
        (0x80_0000 + fraction) * power_of_two((exponent - 1) as nat)
    }
}

/// The number at a place of the numeric order, in units of the smallest positive number.
pub open spec fn amount_at(rank: int) -> int {
    if rank >= SIGN {
        magnitude((rank - SIGN) as nat) as int
    } else {
        -magnitude((SIGN - rank) as nat)
    }
}

/// What a finite number amounts to, in units of the smallest positive number.
pub open spec fn amount(x: Real) -> int {
    amount_at(x.rank())
}

/// How far two finite numbers are apart.
pub open spec fn apart(x: Real, y: Real) -> int {
    if amount(x) <= amount(y) {
        amount(y) - amount(x)
    } else {
        amount(x) - amount(y)
    }
}

pub(crate) proof fn magnitude_grows(a: nat, b: nat)
    requires
        a <= b,
    ensures
        magnitude(a) <= magnitude(b),
{
    let ea = a / 0x80_0000;
    let fa = a % 0x80_0000;
    let eb = b / 0x80_0000;
    let fb = b % 0x80_0000;
    if ea == eb {
        if ea > 0 {
            let p = power_of_two((ea - 1) as nat);
            assert((0x80_0000 + fa) * p <= (0x80_0000 + fb) * p) by (nonlinear_arith)
                requires
                    fa <= fb,
            ;
        }
    } else {
        let q = power_of_two((eb - 1) as nat);
        power_grows(0, (eb - 1) as nat);
        assert(0x80_0000 * q <= (0x80_0000 + fb) * q) by (nonlinear_arith);
        if ea > 0 {
            let p = power_of_two((ea - 1) as nat);
            power_grows(ea, (eb - 1) as nat);
            assert(power_of_two(ea) == 2 * p);
            assert((0x80_0000 + fa) * p <= 0x80_0000 * q) by (nonlinear_arith)
                requires
                    fa < 0x80_0000,
                    2 * p <= q,
            ;
        }
    }
}

/// What numbers amount to goes by their numeric order.
pub proof fn amounts_keep_order(low: int, high: int)
    requires
        low <= high,
    ensures
        amount_at(low) <= amount_at(high),
{
    if low >= SIGN {
        magnitude_grows((low - SIGN) as nat, (high - SIGN) as nat);
    } else if high < SIGN {
        magnitude_grows((SIGN - high) as nat, (SIGN - low) as nat);
    }
}

/// A value lies on the side of the midpoint between two centroids that the boundary puts it on,
/// or at most half of `slack` above the midpoint though it is put below.
pub open spec fn on_its_side(
    below: Real,
    boundary: Real,
    above: Real,
    value: Real,
    slack: int,
) -> bool {
    if boundary.lt(value) {
        amount(below) + amount(above) <= 2 * amount(value)
    } else {
        2 * amount(value) <= amount(below) + amount(above) + slack
    }
}

/// Where a value lies on its side of the boundaries, no centroid of an ascending table is nearer
/// to it by more than `slack` than the one with its code.
pub proof fn sides_give_nearest(table: &LloydMaxCentroids, value: Real, slack: int)
    requires
        0 <= slack,
        table.wf(),
        ascends(table.values()),
        forall|i: int|
            0 <= i < table.bounds().len() ==> on_its_side(
                table.values()[i],
                #[trigger] table.bounds()[i],
                table.values()[i + 1],
                value,
                slack,
            ),
    ensures
        forall|j: int|
            0 <= j < table.values().len() ==> apart(
                value,
                table.values()[table.code_of(value) as int],
            ) <= apart(value, #[trigger] table.values()[j]) + slack,
{
    let values = table.values();
    let bounds = table.bounds();
    code_separates(bounds, value, 0);
    let k = passed(bounds, value, 0) as int;
    assert(table.code_of(value) == k);
    assert forall|j: int| 0 <= j < values.len() implies apart(value, values[k]) <= apart(
        value,
        #[trigger] values[j],
    ) + slack by {
        if j < k {
            values_ascend(values, j, k - 1);
            values_ascend(values, j, k);
            assert(bounds[k - 1].lt(value));
            assert(on_its_side(values[k - 1], bounds[k - 1], values[k - 1 + 1], value, slack));
        } else if j > k {
            values_ascend(values, k + 1, j);
            values_ascend(values, k, j);
            assert(on_its_side(values[k], bounds[k], values[k + 1], value, slack));
        }
    }
}

proof fn values_ascend(values: Seq<Real>, i: int, j: int)
    requires
        ascends(values),
        0 <= i <= j < values.len(),
    ensures
        amount(values[i]) <= amount(values[j]),
    decreases j - i,
{
    if i < j {
        values_ascend(values, i, j - 1);
        assert(values[j - 1].lt(values[j - 1 + 1]));
        amounts_keep_order(values[j - 1].rank(), values[j].rank());
    }
}

/// What a number between an eighth and eight amounts to, over a common power of two.
spec fn units(m: nat) -> int {
    let exponent = m / 0x80_0000;
    let significand = (0x80_0000 + m % 0x80_0000) as int;
    if exponent == 124 {
        significand
    } else if exponent == 125 {
        2 * significand
    } else if exponent == 126 {
        4 * significand
    } else if exponent == 127 {
        8 * significand
    } else {
        16 * significand
    }
}

spec fn units_at(rank: int) -> int {
    if rank == SIGN {
        0
    } else if rank > SIGN {
        units((rank - SIGN) as nat)
    } else {
        -units((SIGN - rank) as nat)
    }
}

spec fn tabled(rank: int) -> bool {
    ||| rank == SIGN
    ||| 124 * 0x80_0000 <= rank - SIGN < 129 * 0x80_0000
    ||| 124 * 0x80_0000 <= SIGN - rank < 129 * 0x80_0000
}

proof fn units_scale(m: nat)
    requires
        124 * 0x80_0000 <= m < 129 * 0x80_0000,
    ensures
        magnitude(m) == units(m) * power_of_two(123),
{
    let exponent = m / 0x80_0000;
    let significand = 0x80_0000 + m % 0x80_0000;
    let base = power_of_two(123);
    assert(124 <= exponent <= 128);
    assert(power_of_two(124) == 2 * base);
    assert(power_of_two(125) == 4 * base);
    assert(power_of_two(126) == 8 * base);
    assert(power_of_two(127) == 16 * base);
    assert(significand * (2 * base) == (2 * significand) * base) by (nonlinear_arith);
    assert(significand * (4 * base) == (4 * significand) * base) by (nonlinear_arith);
    assert(significand * (8 * base) == (8 * significand) * base) by (nonlinear_arith);
    assert(significand * (16 * base) == (16 * significand) * base) by (nonlinear_arith);
}

proof fn amount_scales(rank: int)
    requires
        tabled(rank),
    ensures
        amount_at(rank) == units_at(rank) * power_of_two(123),
{
    let base = power_of_two(123) as int;
    if rank > SIGN {
        units_scale((rank - SIGN) as nat);
    } else if rank < SIGN {
        let u = units((SIGN - rank) as nat);
        units_scale((SIGN - rank) as nat);
        assert(-(u * base) == (-u) * base) by (nonlinear_arith);
    } else {
        assert(0 * base == 0);
    }
}

/// The boundary rounds the midpoint: the midpoint lies between its neighbours in the numeric order.
spec fn rounds_midpoint(below: int, boundary: int, above: int) -> bool {
    let twice = units_at(below) + units_at(above);
    &&& tabled(below)
    &&& tabled(boundary)
    &&& tabled(above)
    &&& twice <= 2 * units_at(boundary) || tabled(boundary + 1) && twice <= 2 * units_at(
        boundary + 1,
    )
    &&& 2 * units_at(boundary) <= twice + 64
    &&& 2 * units_at(boundary) <= twice || tabled(boundary - 1) && 2 * units_at(boundary - 1)
        <= twice
}

/// The value is a boundary that was rounded up, beyond the midpoint it stands for.
pub open spec fn beyond_midpoint(below: Real, boundary: Real, above: Real, value: Real) -> bool {
    value.rank() == boundary.rank() && amount(below) + amount(above) < 2 * amount(boundary)
}

proof fn rounding_keeps_sides(below: Real, boundary: Real, above: Real, value: Real)
    requires
        rounds_midpoint(below.rank(), boundary.rank(), above.rank()),
        !boundary.nan(),
        !value.nan(),
        !beyond_midpoint(below, boundary, above, value),
    ensures
        on_its_side(below, boundary, above, value, 0),
{
    let b = boundary.rank();
    let base = power_of_two(123) as int;
    power_grows(0, 123);
    let twice = units_at(below.rank()) + units_at(above.rank());
    amount_scales(below.rank());
    amount_scales(b);
    amount_scales(above.rank());
    assert(amount(below) + amount(above) == twice * base) by (nonlinear_arith)
        requires
            amount(below) == units_at(below.rank()) * base,
            amount(above) == units_at(above.rank()) * base,
            twice == units_at(below.rank()) + units_at(above.rank()),
    ;
    if boundary.lt(value) {
        if twice <= 2 * units_at(b) {
            products_keep_order(twice, 2 * units_at(b), base);
            doubled(units_at(b), base);
            amounts_keep_order(b, value.rank());
        } else {
            amount_scales(b + 1);
            products_keep_order(twice, 2 * units_at(b + 1), base);
            doubled(units_at(b + 1), base);
            amounts_keep_order(b + 1, value.rank());
        }
    } else {
        if 2 * units_at(b) <= twice {
            products_keep_order(2 * units_at(b), twice, base);
            doubled(units_at(b), base);
            amounts_keep_order(value.rank(), b);
        } else {
            if value.rank() == b {
                doubled(units_at(b), base);
                assert(twice * base < (2 * units_at(b)) * base) by (nonlinear_arith)
                    requires
                        twice < 2 * units_at(b),
                        1 <= base,
                ;
            }
            amount_scales(b - 1);
            products_keep_order(2 * units_at(b - 1), twice, base);
            doubled(units_at(b - 1), base);
            amounts_keep_order(value.rank(), b - 1);
        }
    }
}

/// A bound on twice what a boundary is rounded up by: two to the power of minus twenty, less than
/// a millionth.
pub open spec fn rounding_slack() -> int {
    power_of_two(129) as int
}

proof fn rounding_is_slight(below: Real, boundary: Real, above: Real, value: Real)
    requires
        rounds_midpoint(below.rank(), boundary.rank(), above.rank()),
        !boundary.nan(),
        !value.nan(),
    ensures
        on_its_side(below, boundary, above, value, rounding_slack()),
{
    let b = boundary.rank();
    let base = power_of_two(123) as int;
    power_grows(0, 129);
    if beyond_midpoint(below, boundary, above, value) {
        let twice = units_at(below.rank()) + units_at(above.rank());
        amount_scales(below.rank());
        amount_scales(b);
        amount_scales(above.rank());
        assert(amount(below) + amount(above) == twice * base) by (nonlinear_arith)
            requires
                amount(below) == units_at(below.rank()) * base,
                amount(above) == units_at(above.rank()) * base,
                twice == units_at(below.rank()) + units_at(above.rank()),
        ;
        doubled(units_at(b), base);
        products_keep_order(2 * units_at(b), twice + 64, base);
        assert((twice + 64) * base == twice * base + 64 * base) by (nonlinear_arith);
        assert(64 * base == power_of_two(129)) by {
            reveal_with_fuel(power_of_two, 7);
        }
        assert(value.rank() == b);
    } else {
        rounding_keeps_sides(below, boundary, above, value);
    }
}

proof fn products_keep_order(x: int, y: int, base: int)
    requires
        x <= y,
        0 <= base,
    ensures
        x * base <= y * base,
{
    assert(x * base <= y * base) by (nonlinear_arith)
        requires
            x <= y,
            0 <= base,
    ;
}

proof fn doubled(u: int, base: int)
    ensures
        (2 * u) * base == 2 * (u * base),
{
    assert((2 * u) * base == 2 * (u * base)) by (nonlinear_arith);
}

proof fn tables_round_midpoints(nbits: usize)
    requires
        1 <= nbits <= 4,
    ensures
        forall|i: int|
            0 <= i < fixed_boundaries(nbits).len() ==> rounds_midpoint(
                fixed_centroids(nbits)[i].rank(),
                (#[trigger] fixed_boundaries(nbits)[i]).rank(),
                fixed_centroids(nbits)[i + 1].rank(),
            ),
{
}

/// No centroid of a fixed table is nearer to a finite value than the one whose code the value
/// gets. The values left out are the boundaries that were rounded up: such a value still gets the
/// lower code, though it lies beyond the midpoint by less than the last digit.
pub proof fn code_is_of_nearest_centroid(table: &LloydMaxCentroids, nbits: usize, value: Real)
    requires
        1 <= nbits <= 4,
        table.wf(),
        table.values() == fixed_centroids(nbits),
        table.bounds() == fixed_boundaries(nbits),
        value.finite(),
        forall|i: int|
            0 <= i < table.bounds().len() ==> !beyond_midpoint(
                table.values()[i],
                #[trigger] table.bounds()[i],
                table.values()[i + 1],
                value,
            ),
    ensures
        forall|j: int|
            0 <= j < table.values().len() ==> apart(
                value,
                table.values()[table.code_of(value) as int],
            ) <= apart(value, #[trigger] table.values()[j]),
{
    fixed_tables_law(nbits);
    tables_round_midpoints(nbits);
    assert forall|i: int| 0 <= i < table.bounds().len() implies on_its_side(
        table.values()[i],
        #[trigger] table.bounds()[i],
        table.values()[i + 1],
        value,
        0,
    ) by {
        assert(table.values()[i].lt(table.bounds()[i]));
        rounding_keeps_sides(
            table.values()[i],
            table.bounds()[i],
            table.values()[i + 1],
            value,
        );
    }
    sides_give_nearest(table, value, 0);
}

/// In a fixed table every finite value has a code of the table's width, whose centroid is the
/// nearest but for the rounding of a boundary, which is less than a millionth. A value on a
/// boundary gets the lower code, and a larger value never a smaller code.
pub proof fn codes_of_fixed_tables(table: &LloydMaxCentroids, nbits: usize, value: Real)
    requires
        1 <= nbits <= 4,
        table.wf(),
        table.values() == fixed_centroids(nbits),
        table.bounds() == fixed_boundaries(nbits),
        value.finite(),
    ensures
        table.code_of(value) < power_of_two(nbits as nat),
        table.values().len() == power_of_two(nbits as nat),
        forall|j: int|
            0 <= j < table.values().len() ==> apart(
                value,
                table.values()[table.code_of(value) as int],
            ) <= apart(value, #[trigger] table.values()[j]) + rounding_slack(),
        forall|i: int|
            0 <= i < table.bounds().len() && value.rank() == (
            #[trigger] table.bounds()[i]).rank() ==> table.code_of(value) == i,
        forall|high: Real| #[trigger]
            value.le(high) ==> table.code_of(value) <= table.code_of(high),
{
    let bounds = table.bounds();
    fixed_tables_law(nbits);
    tables_round_midpoints(nbits);
    reveal_with_fuel(power_of_two, 5);
    code_separates(bounds, value, 0);
    let k = passed(bounds, value, 0) as int;
    assert forall|i: int| 0 <= i < bounds.len() implies on_its_side(
        table.values()[i],
        #[trigger] bounds[i],
        table.values()[i + 1],
        value,
        rounding_slack(),
    ) by {
        assert(table.values()[i].lt(bounds[i]));
        rounding_is_slight(table.values()[i], bounds[i], table.values()[i + 1], value);
    }
    power_grows(0, 129);
    sides_give_nearest(table, value, rounding_slack());
    assert forall|i: int| 0 <= i < bounds.len() && value.rank() == (
    #[trigger] bounds[i]).rank() implies table.code_of(value) == i by {
        if k > i {
            assert(bounds[i].lt(value));
        }
        if k < i {
            bounds_ascend(bounds, k, i);
        }
    }
    assert forall|high: Real| #[trigger] value.le(high) implies table.code_of(value)
        <= table.code_of(high) by {
        code_separates(bounds, high, 0);
        codes_keep_order(bounds, value, high, 0);
    }
}

proof fn bounds_ascend(bounds: Seq<Real>, i: int, j: int)
    requires
        ascends(bounds),
        0 <= i < j < bounds.len(),
    ensures
        bounds[i].lt(bounds[j]),
    decreases j - i,
{
    assert(bounds[j - 1].lt(bounds[j - 1 + 1]));
    if i < j - 1 {
        bounds_ascend(bounds, i, j - 1);
    }
}

/// A number is `k` hundred-thousandths, but for less than one of them.
pub open spec fn about(x: Real, k: int) -> bool {
    &&& x.finite()
    &&& -power_of_two(149) < amount(x) * 100_000 - k * power_of_two(149) < power_of_two(149)
}

proof fn digits_about(bits: u32, k: int)
    requires
        124 * 0x80_0000 <= bits < 129 * 0x80_0000,
        ({
            let e = bits as int / 0x80_0000;
            let m = 0x80_0000 + bits as int % 0x80_0000;
            let p: int = if e == 124 {
                0x400_0000
            } else if e == 125 {
                0x200_0000
            } else if e == 126 {
                0x100_0000
            } else if e == 127 {
                0x80_0000
            } else {
                0x40_0000
            };
            -p < m * 100_000 - k * p < p
        }),
    ensures
        about(Real { bits }, k),
{
    let e = bits as int / 0x80_0000;
    let m = 0x80_0000 + bits as int % 0x80_0000;
    assert(power_of_two(22) == 0x40_0000 && power_of_two(24) == 0x100_0000 && power_of_two(25)
        == 0x200_0000 && power_of_two(26) == 0x400_0000 && power_of_two(23) == 0x80_0000) by {
        reveal_with_fuel(power_of_two, 27);
    }
    let p = power_of_two((150 - e) as nat) as int;
    let q = power_of_two((e - 1) as nat) as int;
    power_adds((e - 1) as nat, (150 - e) as nat);
    power_grows(0, (e - 1) as nat);
    let w = power_of_two(149) as int;
    assert(amount(Real { bits }) == m * q);
    assert(-w < (m * q) * 100_000 - k * w < w) by (nonlinear_arith)
        requires
            q * p == w,
            q >= 1,
            -p < m * 100_000 - k * p < p,
    ;
}

/// The centroids of the fixed tables above zero, in hundred-thousandths. Those below zero mirror
/// them.
pub proof fn fixed_centroids_in_decimals()
    ensures
        about(fixed_centroids(1)[1], 79_788),
        about(fixed_centroids(2)[2], 45_278),
        about(fixed_centroids(2)[3], 151_042),
        about(fixed_centroids(3)[4], 24_509),
        about(fixed_centroids(3)[5], 75_601),
        about(fixed_centroids(3)[6], 134_391),
        about(fixed_centroids(3)[7], 215_195),
        about(fixed_centroids(4)[8], 12_840),
        about(fixed_centroids(4)[9], 38_805),
        about(fixed_centroids(4)[10], 65_676),
        about(fixed_centroids(4)[11], 94_234),
        about(fixed_centroids(4)[12], 125_623),
        about(fixed_centroids(4)[13], 161_805),
        about(fixed_centroids(4)[14], 206_902),
        about(fixed_centroids(4)[15], 273_259),
{
    digits_about(0x3f4c_422a, 79_788);
    digits_about(0x3ee7_d2c9, 45_278);
    digits_about(0x3fc1_555d, 151_042);
    digits_about(0x3e7a_f9f8, 24_509);
    digits_about(0x3f41_8990, 75_601);
    digits_about(0x3fac_0538, 134_391);
    digits_about(0x4009_b97a, 215_195);
    digits_about(0x3e03_79fd, 12_840);
    digits_about(0x3ec6_ae44, 38_805);
    digits_about(0x3f28_215e, 65_676);
    digits_about(0x3f71_3d39, 94_234);
    digits_about(0x3fa0_cc2f, 125_623);
    digits_about(0x3fcf_1c25, 161_805);
    digits_about(0x4004_6ac7, 206_902);
    digits_about(0x402e_e2bf, 273_259);
}

} // verus!
