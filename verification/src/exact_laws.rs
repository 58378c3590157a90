//! That operations can be exact wherever the true result has few enough binary digits.

use crate::arith::Arithmetic;
use crate::centroid_laws::{amount, magnitude};
use crate::exact::{count_worth, deepest, exact, negation_worth, short, worth, zero_worth};
use crate::number::{
    count_bits, log2_floor, log2_floor_bounds, power_adds, power_grows, power_of_two, Real,
};
use vstd::prelude::*;

verus! {

/// Two numbers, to a third.
pub type Operation = spec_fn(Real, Real) -> Real;

/// The operations give the true result wherever it is a short number with not too many digits
/// after the point.
pub open spec fn exact_operations(
    sum: Operation,
    difference: Operation,
    product: Operation,
    quotient: Operation,
    root: spec_fn(Real) -> Real,
) -> bool {
    &&& forall|x: Real, y: Real, k: int, l: int, s: nat|
        #![trigger worth(x, k, s), worth(y, l, s), sum(x, y)]
        worth(x, k, s) && worth(y, l, s) && short(k + l) && s <= deepest() ==> worth(
            sum(x, y),
            k + l,
            s,
        )
    &&& forall|x: Real, y: Real, k: int, l: int, s: nat|
        #![trigger worth(x, k, s), worth(y, l, s), difference(x, y)]
        worth(x, k, s) && worth(y, l, s) && short(k - l) && s <= deepest() ==> worth(
            difference(x, y),
            k - l,
            s,
        )
    &&& forall|x: Real, y: Real, k: int, l: int, s: nat, t: nat|
        #![trigger worth(x, k, s), worth(y, l, t), product(x, y)]
        worth(x, k, s) && worth(y, l, t) && short(k * l) && s + t <= deepest() ==> worth(
            product(x, y),
            k * l,
            s + t,
        )
    &&& forall|x: Real, y: Real, k: int, l: int, s: nat, t: nat, q: int, u: nat|
        #![trigger worth(x, k, s), worth(y, l, t), worth(quotient(x, y), q, u)]
        worth(x, k, s) && worth(y, l, t) && l != 0 && short(q) && u <= deepest() && q * l
            * power_of_two(s) == k * power_of_two(t + u) ==> worth(quotient(x, y), q, u)
    &&& forall|x: Real, q: int, u: nat|
        #![trigger worth(root(x), q, u)]
        worth(x, q * q, 2 * u) && 0 <= q && short(q) && u <= deepest() ==> worth(root(x), q, u)
}

/// A number with the amount `a`, if there is one.
spec fn with_amount(a: int) -> Real {
    choose|z: Real| z.finite() && #[trigger] amount(z) == a
}

proof fn cancel(a: int, b: int, c: int)
    requires
        c != 0,
        a * c == b * c,
    ensures
        a == b,
{
    assert(a == b) by (nonlinear_arith)
        requires
            c != 0,
            a * c == b * c,
    ;
}

proof fn halved_often(bits: nat, s: nat)
    requires
        bits >= 0x80_0000 * (s + 1),
    ensures
        magnitude((bits - 0x80_0000 * s) as nat) * power_of_two(s) == magnitude(bits),
{
    let less = (bits - 0x80_0000 * s) as nat;
    let e = (less / 0x80_0000) as nat;
    assert(bits / 0x80_0000 == e + s);
    assert(bits % 0x80_0000 == less % 0x80_0000);
    assert(e >= 1);
    let m = 0x80_0000 + less % 0x80_0000;
    let p = power_of_two((e - 1) as nat);
    let q = power_of_two(s);
    power_adds((e - 1) as nat, s);
    assert((m * p) * q == m * (p * q)) by (nonlinear_arith);
}

/// Every short number with not too many digits after the point can be written.
pub proof fn short_numbers_exist(k: int, s: nat) -> (z: Real)
    requires
        short(k),
        s <= deepest(),
    ensures
        worth(z, k, s),
{
    if k == 0 {
        zero_worth(s);
        Real::spec_zero()
    } else if k < 0 {
        let z = short_numbers_exist_above(-k, s);
        negation_worth(z, -k, s);
        z.negation()
    } else {
        short_numbers_exist_above(k, s)
    }
}

proof fn short_numbers_exist_above(k: int, s: nat) -> (z: Real)
    requires
        0 < k <= 0x100_0000,
        s <= deepest(),
    ensures
        worth(z, k, s),
{
    reveal(worth);
    let h = k as nat;
    count_worth(h);
    log2_floor_bounds(h);
    crate::number::count_bits_bound(h);
    let bits = count_bits(h);
    count_at_least_one(h);
    halved_often(bits, s);
    let less = (bits - 0x80_0000 * s) as nat;
    let z = Real { bits: less as u32 };
    let whole = Real { bits: bits as u32 };
    assert(power_of_two(0) == 1);
    assert(amount(whole) == magnitude(bits));
    assert(amount(whole) * power_of_two(0) == k * power_of_two(149));
    let a = amount(whole);
    let one = power_of_two(0) as int;
    assert(a * one == a) by (nonlinear_arith)
        requires
            one == 1,
    ;
    assert(amount(z) == magnitude(less));
    z
}

proof fn count_at_least_one(h: nat)
    requires
        1 <= h <= 0x100_0000,
    ensures
        0x3f80_0000 <= count_bits(h),
{
    crate::number::fixed_powers();
    log2_floor_bounds(h);
    let e = log2_floor(h);
    if e <= 23 {
        let p = power_of_two((23 - e) as nat);
        power_adds(e, (23 - e) as nat);
        power_grows(0, (23 - e) as nat);
        assert(h * p >= 0x80_0000) by (nonlinear_arith)
            requires
                power_of_two(e) <= h,
                power_of_two(e) * p == 0x80_0000,
                p >= 1,
        ;
    } else {
        if e >= 25 {
            power_grows(25, e);
            assert(power_of_two(25) == 2 * power_of_two(24));
        }
        assert(power_of_two(1) == 2 * power_of_two(0));
        assert(power_of_two(0) == 1);
    }
}

proof fn found_with_amount(z: Real, a: int, k: int, s: nat)
    requires
        worth(z, k, s),
        amount(z) == a,
    ensures
        worth(with_amount(a), k, s),
{
    reveal(worth);
    assert(z.finite() && amount(z) == a);
}

proof fn sum_found(x: Real, y: Real, k: int, l: int, s: nat)
    requires
        worth(x, k, s),
        worth(y, l, s),
        s <= deepest(),
    ensures
        short(k + l) ==> worth(with_amount(amount(x) + amount(y)), k + l, s),
        short(k - l) ==> worth(with_amount(amount(x) - amount(y)), k - l, s),
{
    reveal(worth);
    let a = amount(x);
    let b = amount(y);
    let p = power_of_two(s) as int;
    let w = power_of_two(149) as int;
    power_grows(0, s);
    if short(k + l) {
        let z = short_numbers_exist(k + l, s);
        assert((a + b) * p == (k + l) * w) by (nonlinear_arith)
            requires
                a * p == k * w,
                b * p == l * w,
        ;
        cancel(amount(z), a + b, p);
        found_with_amount(z, a + b, k + l, s);
    }
    if short(k - l) {
        let z = short_numbers_exist(k - l, s);
        assert((a - b) * p == (k - l) * w) by (nonlinear_arith)
            requires
                a * p == k * w,
                b * p == l * w,
        ;
        cancel(amount(z), a - b, p);
        found_with_amount(z, a - b, k - l, s);
    }
}

/// A number whose amount times `by` is `a`, if there is one.
spec fn with_share(a: int, by: int) -> Real {
    choose|z: Real| z.finite() && #[trigger] amount(z) * by == a
}

proof fn found_with_share(z: Real, a: int, by: int, k: int, s: nat)
    requires
        worth(z, k, s),
        by != 0,
        amount(z) * by == a,
    ensures
        worth(with_share(a, by), k, s),
{
    reveal(worth);
    assert(z.finite() && amount(z) * by == a);
    cancel(amount(z), amount(with_share(a, by)), by);
}

proof fn product_found(x: Real, y: Real, k: int, l: int, s: nat, t: nat)
    requires
        worth(x, k, s),
        worth(y, l, t),
        short(k * l),
        s + t <= deepest(),
    ensures
        worth(with_share(amount(x) * amount(y), power_of_two(149) as int), k * l, s + t),
{
    let z = short_numbers_exist(k * l, s + t);
    let a = amount(x);
    let b = amount(y);
    let c = amount(z);
    let p = power_of_two(s) as int;
    let q = power_of_two(t) as int;
    let w = power_of_two(149) as int;
    power_grows(0, s);
    power_grows(0, t);
    power_grows(0, 149);
    power_adds(s, t);
    assert(a * p == k * w && b * q == l * w && c * (p * q) == (k * l) * w) by {
        reveal(worth);
    }
    assert((a * b) * (p * q) == (a * p) * (b * q)) by (nonlinear_arith);
    assert((k * w) * (l * w) == ((k * l) * w) * w) by (nonlinear_arith);
    assert((c * w) * (p * q) == (c * (p * q)) * w) by (nonlinear_arith);
    assert(p * q != 0) by (nonlinear_arith)
        requires
            p >= 1,
            q >= 1,
    ;
    cancel(c * w, a * b, p * q);
    found_with_share(z, a * b, w, k * l, s + t);
}

proof fn quotient_found(
    x: Real,
    y: Real,
    k: int,
    l: int,
    s: nat,
    t: nat,
    q: int,
    u: nat,
)
    requires
        worth(x, k, s),
        worth(y, l, t),
        l != 0,
        short(q),
        u <= deepest(),
        q * l * power_of_two(s) == k * power_of_two(t + u),
    ensures
        worth(with_share(amount(x) * power_of_two(149), amount(y)), q, u),
{
    let z = short_numbers_exist(q, u);
    let a = amount(x);
    let b = amount(y);
    let c = amount(z);
    let ps = power_of_two(s) as int;
    let pt = power_of_two(t) as int;
    let pu = power_of_two(u) as int;
    let w = power_of_two(149) as int;
    power_grows(0, s);
    power_grows(0, t);
    power_grows(0, u);
    power_grows(0, 149);
    power_adds(t, u);
    assert(a * ps == k * w && b * pt == l * w && c * pu == q * w) by {
        reveal(worth);
    }
    assert(b != 0) by (nonlinear_arith)
        requires
            b * pt == l * w,
            l != 0,
            w >= 1,
    ;
    let all = ps * (pt * pu);
    assert(all != 0) by (nonlinear_arith)
        requires
            all == ps * (pt * pu),
            ps >= 1,
            pt >= 1,
            pu >= 1,
    ;
    assert((c * b) * (ps * (pt * pu)) == ((c * pu) * (b * pt)) * ps) by (nonlinear_arith);
    assert(((q * w) * (l * w)) * ps == (q * l * ps) * (w * w)) by (nonlinear_arith);
    assert((a * w) * (ps * (pt * pu)) == ((a * ps) * w) * (pt * pu)) by (nonlinear_arith);
    assert(((k * w) * w) * (pt * pu) == (k * (pt * pu)) * (w * w)) by (nonlinear_arith);
    cancel(c * b, a * w, all);
    found_with_share(z, a * w, b, q, u);
}

/// A number whose squared amount is `a` and which is not negative, if there is one.
spec fn with_square(a: int) -> Real {
    choose|z: Real| z.finite() && 0 <= #[trigger] amount(z) && amount(z) * amount(z) == a
}

proof fn root_found(x: Real, q: int, u: nat)
    requires
        worth(x, q * q, 2 * u),
        0 <= q,
        short(q),
        u <= deepest(),
    ensures
        worth(with_square(amount(x) * power_of_two(149)), q, u),
{
    reveal(worth);
    let z = short_numbers_exist(q, u);
    let a = amount(x);
    let c = amount(z);
    let p = power_of_two(u) as int;
    let w = power_of_two(149) as int;
    power_grows(0, u);
    power_grows(0, 149);
    power_adds(u, u);
    assert(u + u == 2 * u);
    assert(c >= 0) by (nonlinear_arith)
        requires
            c * p == q * w,
            q >= 0,
            w >= 1,
            p >= 1,
    ;
    assert((c * c) * (p * p) == (a * w) * (p * p)) by (nonlinear_arith)
        requires
            c * p == q * w,
            a * (p * p) == (q * q) * w,
    ;
    assert(p * p != 0) by (nonlinear_arith)
        requires
            p >= 1,
    ;
    cancel(c * c, a * w, p * p);
    let r = with_square(a * w);
    assert(z.finite() && 0 <= amount(z) && amount(z) * amount(z) == a * w);
    let d = amount(r);
    assert(d == c) by (nonlinear_arith)
        requires
            d * d == c * c,
            d >= 0,
            c >= 0,
    ;
}

/// There are exact operations.
pub proof fn exact_operations_exist()
    ensures
        exists|
            sum: Operation,
            difference: Operation,
            product: Operation,
            quotient: Operation,
            root: spec_fn(Real) -> Real,
        | #[trigger]
            exact_operations(sum, difference, product, quotient, root),
{
    let sum: Operation = |x: Real, y: Real| with_amount(amount(x) + amount(y));
    let difference: Operation = |x: Real, y: Real| with_amount(amount(x) - amount(y));
    let product: Operation = |x: Real, y: Real|
        with_share(amount(x) * amount(y), power_of_two(149) as int);
    let quotient: Operation = |x: Real, y: Real|
        with_share(amount(x) * power_of_two(149), amount(y));
    let root = |x: Real| with_square(amount(x) * power_of_two(149));
    assert forall|x: Real, y: Real, k: int, l: int, s: nat|
        #![trigger worth(x, k, s), worth(y, l, s), sum(x, y)]
        worth(x, k, s) && worth(y, l, s) && short(k + l) && s <= deepest() implies worth(
        sum(x, y),
        k + l,
        s,
    ) by {
        sum_found(x, y, k, l, s);
    }
    assert forall|x: Real, y: Real, k: int, l: int, s: nat|
        #![trigger worth(x, k, s), worth(y, l, s), difference(x, y)]
        worth(x, k, s) && worth(y, l, s) && short(k - l) && s <= deepest() implies worth(
        difference(x, y),
        k - l,
        s,
    ) by {
        sum_found(x, y, k, l, s);
    }
    assert forall|x: Real, y: Real, k: int, l: int, s: nat, t: nat|
        #![trigger worth(x, k, s), worth(y, l, t), product(x, y)]
        worth(x, k, s) && worth(y, l, t) && short(k * l) && s + t <= deepest() implies worth(
        product(x, y),
        k * l,
        s + t,
    ) by {
        product_found(x, y, k, l, s, t);
    }
    assert forall|x: Real, y: Real, k: int, l: int, s: nat, t: nat, q: int, u: nat|
        #![trigger worth(x, k, s), worth(y, l, t), worth(quotient(x, y), q, u)]
        worth(x, k, s) && worth(y, l, t) && l != 0 && short(q) && u <= deepest() && q * l
            * power_of_two(s) == k * power_of_two(t + u) implies worth(quotient(x, y), q, u) by {
        quotient_found(x, y, k, l, s, t, q, u);
    }
    assert forall|x: Real, q: int, u: nat|
        #![trigger worth(root(x), q, u)]
        worth(x, q * q, 2 * u) && 0 <= q && short(q) && u <= deepest() implies worth(
        root(x),
        q,
        u,
    ) by {
        root_found(x, q, u);
    }
    assert(exact_operations(sum, difference, product, quotient, root));
}

/// An arithmetic whose operations are exact is exact.
pub proof fn operations_make_exact<A: Arithmetic>(
    ops: A,
    sum: Operation,
    difference: Operation,
    product: Operation,
    quotient: Operation,
    root: spec_fn(Real) -> Real,
)
    requires
        exact_operations(sum, difference, product, quotient, root),
        forall|x: Real, y: Real| #[trigger] ops.sum(x, y) == sum(x, y),
        forall|x: Real, y: Real| #[trigger] ops.difference(x, y) == difference(x, y),
        forall|x: Real, y: Real| #[trigger] ops.product(x, y) == product(x, y),
        forall|x: Real, y: Real| #[trigger] ops.quotient(x, y) == quotient(x, y),
        forall|x: Real| #[trigger] ops.root(x) == root(x),
    ensures
        exact(ops),
{
    reveal(exact);
}

} // verus!
