//! How far the result of an operation on doubles lies from the exact one.

use crate::double;
use crate::double::{nearest_even, round_ratio, scale, units, width, Double, HIDDEN, INFINITE};
use vstd::arithmetic::div_mod::*;
use vstd::arithmetic::mul::*;
use vstd::arithmetic::power2::*;
use vstd::prelude::*;

verus! {

/// `2^53`: a rounded number of full precision lies within its part in `PARTS`
/// of the exact one.
pub const PARTS: u64 = 0x0020_0000_0000_0000;

/// Whether `r` units are close to `n / d` units: within one part in `PARTS` of
/// it, or within half a unit.
pub open spec fn close(r: nat, n: nat, d: nat) -> bool {
    ||| (r * d - n) * PARTS <= n && (n - r * d) * PARTS <= n
    ||| 2 * (r * d - n) <= d && 2 * (n - r * d) <= d
}

/// The nearest whole number lies within half of one.
proof fn lemma_nearest(n: nat, d: nat)
    requires
        d > 0,
    ensures
        2 * (nearest_even(n, d) * d - n) <= d,
        2 * (n - nearest_even(n, d) * d) <= d,
        n % d == 0 ==> nearest_even(n, d) * d == n,
{
    let q = n / d;
    let r = n % d;
    lemma_fundamental_div_mod(n as int, d as int);
    lemma_mul_is_commutative(d as int, q as int);
    lemma_mul_is_distributive_add_other_way(d as int, q as int, 1);
}

/// The value of the magnitude bits that a scale and a mantissa make.
proof fn lemma_units_of(k: nat, q: nat)
    requires
        q <= 2 * HIDDEN,
        k > 0 ==> q >= HIDDEN,
    ensures
        units(k * (HIDDEN as nat) + q) == q * pow2(k),
{
    let h = HIDDEN as nat;
    let m = k * h + q;
    lemma2_to64();
    if q < h {
        assert(m == q);
    } else if q < 2 * h {
        let f = (q - h) as nat;
        assert(m == (k + 1) * h + f) by (nonlinear_arith)
            requires
                m == k * h + q,
                q == h + f,
        ;
        lemma_fundamental_div_mod_converse(m as int, h as int, (k + 1) as int, f as int);
        assert((m / h - 1) as nat == k);
    } else {
        assert(m == (k + 2) * h + 0) by (nonlinear_arith)
            requires
                m == k * h + q,
                q == 2 * h,
        ;
        lemma_fundamental_div_mod_converse(m as int, h as int, (k + 2) as int, 0);
        assert((m / h - 1) as nat == k + 1);
        lemma_pow2_unfold(k + 1);
        lemma_mul_is_associative(h as int, 2, pow2(k) as int);
    }
}

/// The mantissa that a fraction rounds to has the digits of a double.
proof fn lemma_mantissa(n: nat, d: nat)
    requires
        d > 0,
    ensures
        ({
            let k = scale(n, d);
            let q = nearest_even(n, d * pow2(k));
            &&& d * pow2(k) > 0
            &&& q <= 2 * HIDDEN
            &&& k > 0 ==> q >= HIDDEN && d * pow2(k) * (HIDDEN as nat) <= n
        }),
{
    let h = HIDDEN as nat;
    let w = width(n / d);
    let k = scale(n, d);
    let c = pow2(k);
    lemma2_to64();
    lemma2_to64_rest();
    lemma_pow2_pos(k);
    lemma_mul_strictly_positive(d as int, c as int);
    double::lemma_width(n / d);
    double::lemma_nearest_monotone(n, n, d * c);
    lemma_div_denominator(n as int, d as int, c as int);
    let x = n / d;
    if k == 0 {
        double::lemma_pow2_order(w, 53);
        assert(c == 1);
        lemma_mul_basics(d as int);
    } else {
        lemma_pow2_adds(52, k);
        lemma_pow2_adds(53, k);
        assert(x < (2 * h) * c);
        assert(h * c <= x);
        lemma_mul_is_commutative(2 * h as int, c as int);
        lemma_mul_is_commutative(h as int, c as int);
        lemma_div_by_multiple_is_strongly_ordered(x as int, (c * (2 * h)) as int, (2 * h) as int, c as int);
        lemma_div_multiples_vanish((2 * h) as int, c as int);
        lemma_div_is_ordered((c * h) as int, x as int, c as int);
        lemma_div_multiples_vanish(h as int, c as int);
        lemma_fundamental_div_mod(n as int, d as int);
        assert(d * c * h <= n) by (nonlinear_arith)
            requires
                h * c <= x,
                n >= d * x,
                d > 0,
                c > 0,
        ;
    }
}

/// A fraction rounds to a double that is close to it, and to itself where its
/// digits fit.
pub proof fn lemma_rounded(n: nat, d: nat)
    requires
        d > 0,
        round_ratio(n, d) < INFINITE,
    ensures
        close(units(round_ratio(n, d)), n, d),
        n % (d * pow2(scale(n, d))) == 0 ==> units(round_ratio(n, d)) * d == n,
{
    let h = HIDDEN as nat;
    let k = scale(n, d);
    let c = pow2(k);
    let e = d * c;
    let q = nearest_even(n, e);
    lemma_mantissa(n, d);
    lemma_units_of(k, q);
    lemma_nearest(n, e);
    let r = units(round_ratio(n, d));
    assert(r == q * c);
    assert(r * d == q * e) by (nonlinear_arith)
        requires
            r == q * c,
            e == d * c,
    ;
    if k == 0 {
        lemma2_to64();
        lemma_mul_basics(d as int);
        assert(e == d);
    } else {
        assert((r * d - n) * PARTS <= n) by (nonlinear_arith)
            requires
                2 * (r * d - n) <= e,
                e * h <= n,
                PARTS == 2 * h,
        ;
        assert((n - r * d) * PARTS <= n) by (nonlinear_arith)
            requires
                2 * (n - r * d) <= e,
                e * h <= n,
                PARTS == 2 * h,
        ;
    }
}

/// Whether it is a number that is not below zero.
pub open spec fn not_below_zero(x: Double) -> bool {
    !x.nan() && x.value() >= 0
}

/// The sum of numbers that are not below zero is none either. Where it is
/// finite, they are, and it lies within one part in `PARTS` of the exact sum.
pub proof fn lemma_sum_rounded(a: Double, b: Double)
    requires
        not_below_zero(a),
        not_below_zero(b),
    ensures
        not_below_zero(a.sum(b)),
        a.sum(b).finite() ==> {
            let s = a.value() + b.value();
            &&& a.finite()
            &&& b.finite()
            &&& a.sum(b).value() * PARTS <= s * (PARTS + 1)
            &&& a.sum(b).value() * PARTS >= s * (PARTS - 1)
        },
{
    double::lemma_value_sign(a);
    double::lemma_value_sign(b);
    double::lemma_units_order(0, INFINITE as nat);
    let s = a.value() + b.value();
    if a.finite() && b.finite() {
        if s == 0 {
            double::lemma_signed(a.negative() && b.negative(), 0);
            double::lemma_units_order(0, 0);
        } else {
            let m = round_ratio(s as nat, 1);
            double::lemma_signed(false, m);
            if m < INFINITE {
                lemma_rounded(s as nat, 1);
                let r = units(m);
                lemma_mul_is_distributive_add(s, PARTS as int, 1);
                lemma_mul_is_distributive_sub(s, PARTS as int, 1);
                lemma_mul_is_distributive_sub_other_way(PARTS as int, r as int, s);
                lemma_mul_is_distributive_sub_other_way(PARTS as int, s, r as int);
                assert(r * 1 == r);
            }
        }
    }
}

/// Whole numbers of few enough digits are written exactly.
pub proof fn lemma_small_whole(c: nat)
    requires
        0 < c < 0x10_0000_0000_0000,
    ensures
        ({
            let x = Double::whole(c as int);
            &&& x.finite()
            &&& !x.negative()
            &&& units(x.magnitude()) == c * double::one()
        }),
{
    let h = HIDDEN as nat;
    let u = double::one();
    let n = c * u;
    let k = scale(n, 1);
    lemma2_to64();
    lemma2_to64_rest();
    lemma_pow2_pos(1074);
    lemma_pow2_adds(52, 1074);
    lemma_mul_strict_inequality(c as int, 0x10_0000_0000_0000, u as int);
    assert(n / 1 == n);
    double::lemma_width_at_most(n, 1126);
    assert(k <= 1073);
    let p = pow2(k);
    lemma_pow2_pos(k);
    lemma_pow2_adds((1074 - k) as nat, k);
    let j = pow2((1074 - k) as nat);
    lemma_mul_is_associative(c as int, j as int, p as int);
    lemma_mod_multiples_basic((c * j) as int, p as int);
    assert(n == (c * j) * p);
    assert(1 * p == p);
    assert(n % (1 * p) == 0);
    lemma_mantissa(n, 1);
    let q = nearest_even(n, 1 * p);
    assert(k * h + q < INFINITE) by (nonlinear_arith)
        requires
            k <= 1073,
            q <= 2 * h,
            h == 0x0010_0000_0000_0000,
            INFINITE == 0x7FF0_0000_0000_0000,
    ;
    lemma_rounded(n, 1);
    double::lemma_signed(false, round_ratio(n, 1));
}

/// A number that is not below zero, shared out in a few parts. Where a share is
/// finite, the number is, and all shares together lie within one part in
/// `PARTS` of the number, or within half a unit for each.
pub proof fn lemma_share_rounded(a: Double, c: nat)
    requires
        not_below_zero(a),
        0 < c < 64,
    ensures
        not_below_zero(a.quotient(Double::whole(c as int))),
        a.quotient(Double::whole(c as int)).finite() ==> {
            let x = 2 * (c * a.quotient(Double::whole(c as int)).value());
            &&& a.finite()
            &&& x * PARTS <= (2 * a.value() + c) * (PARTS + 1)
            &&& x * PARTS >= (2 * a.value() - c) * (PARTS - 1)
        },
{
    let w = Double::whole(c as int);
    let u = double::one();
    let s = a.quotient(w);
    lemma_small_whole(c);
    lemma_pow2_pos(1074);
    lemma_mul_strictly_positive(c as int, u as int);
    double::lemma_value_sign(a);
    double::lemma_units_order(w.magnitude(), 0);
    double::lemma_units_order(a.magnitude(), 0);
    double::lemma_units_order(0, INFINITE as nat);
    if a.infinite() {
        double::lemma_signed(a.negative(), INFINITE as nat);
    } else {
        let n = units(a.magnitude());
        let m = round_ratio(n * u, c * u);
        lemma_mul_is_associative(n as int, u as int, c as int);
        lemma_mul_is_commutative(u as int, c as int);
        double::lemma_round_same(n * u, c * u, n, c);
        double::lemma_signed(a.negative(), m);
        if a.zero() {
            assert(n == 0);
            double::lemma_round_exact(0);
            double::lemma_round_same(0, c, 0, 1);
            assert(m == 0);
        }
        assert(a.value() == n);
        if m < INFINITE {
            lemma_rounded(n, c);
            let r = units(m);
            lemma_mul_is_commutative(r as int, c as int);
            assert(s.value() == r);
            let x = 2 * (c * r);
            assert(x * PARTS <= (2 * n + c) * (PARTS + 1) && x * PARTS >= (2 * n - c) * (PARTS
                - 1)) by {
                let t = c * r;
                if 2 * (t - n) <= c && 2 * (n - t) <= c {
                    lemma_half_a_unit(t as int, n as int, c as int);
                } else {
                    lemma_part(t as int, n as int, c as int);
                }
            }
        }
    }
}

/// What lies within half of `c` does so with room for a rounding.
proof fn lemma_half_a_unit(t: int, n: int, c: int)
    requires
        0 <= t,
        0 <= n,
        0 < c,
        2 * (t - n) <= c,
        2 * (n - t) <= c,
    ensures
        (2 * t) * PARTS <= (2 * n + c) * (PARTS + 1),
        (2 * t) * PARTS >= (2 * n - c) * (PARTS - 1),
{
}

/// What lies within one part does so with room for a half of `c`.
proof fn lemma_part(t: int, n: int, c: int)
    requires
        0 <= t,
        0 <= n,
        0 < c,
        (t - n) * PARTS <= n,
        (n - t) * PARTS <= n,
    ensures
        (2 * t) * PARTS <= (2 * n + c) * (PARTS + 1),
        (2 * t) * PARTS >= (2 * n - c) * (PARTS - 1),
{
}

/// A number that a double can hold with room rounds to a finite one.
proof fn lemma_room(n: nat)
    requires
        n <= pow2(2097),
    ensures
        round_ratio(n, 1) < INFINITE,
{
    let h = HIDDEN as nat;
    let top = (INFINITE - 1) as nat;
    lemma2_to64();
    lemma2_to64_rest();
    lemma_pow2_adds(52, 2045);
    lemma_pow2_pos(2045);
    assert(top / h == 2046 && top % h == h - 1);
    lemma_mul_inequality(h as int, (top % h + h) as int, pow2(2045) as int);
    double::lemma_round_exact(top);
    double::lemma_round_monotone(n, 1, units(top), 1);
}

/// A sum that a double can hold with room is finite.
pub proof fn lemma_sum_finite(a: Double, b: Double)
    requires
        not_below_zero(a),
        not_below_zero(b),
        a.finite(),
        b.finite(),
        a.value() + b.value() <= pow2(2097),
    ensures
        a.sum(b).finite(),
{
    let s = a.value() + b.value();
    if s == 0 {
        double::lemma_signed(a.negative() && b.negative(), 0);
    } else {
        lemma_room(s as nat);
        double::lemma_signed(false, round_ratio(s as nat, 1));
    }
}

/// A share of a finite number is finite.
pub proof fn lemma_share_finite(a: Double, c: nat)
    requires
        a.finite(),
        0 < c < 64,
    ensures
        a.quotient(Double::whole(c as int)).finite(),
{
    let w = Double::whole(c as int);
    let u = double::one();
    let n = units(a.magnitude());
    lemma_small_whole(c);
    lemma_pow2_pos(1074);
    lemma_mul_strictly_positive(c as int, u as int);
    double::lemma_units_order(w.magnitude(), 0);
    double::lemma_round_exact(a.magnitude());
    lemma_mul_inequality(1, c as int, u as int);
    lemma_mul_inequality(u as int, (c * u) as int, n as int);
    lemma_mul_is_commutative(n as int, u as int);
    lemma_mul_is_commutative(n as int, (c * u) as int);
    lemma_mul_basics((n * u) as int);
    double::lemma_round_monotone(n * u, c * u, n, 1);
    double::lemma_signed(a.negative(), round_ratio(n * u, c * u));
}

/// What lies close to a fraction, in one inequality for both ways of being close.
proof fn lemma_close(r: nat, n: nat, d: nat)
    requires
        close(r, n, d),
    ensures
        (r * d - n) * (2 * PARTS) <= 2 * n + d * PARTS,
        (n - r * d) * (2 * PARTS) <= 2 * n + d * PARTS,
{
    let over: int = r * d - n;
    let under: int = n - r * d;
    let t: int = PARTS as int;
    lemma_mul_is_associative(over, 2, t);
    lemma_mul_is_associative(under, 2, t);
    if 2 * over <= d && 2 * under <= d {
        lemma_mul_inequality(2 * over, d as int, t);
        lemma_mul_inequality(2 * under, d as int, t);
    } else {
        lemma_mul_nonnegative(d as int, t);
    }
}

/// The product of numbers that are not below zero: in units, it lies within one
/// part in `PARTS` of the exact one, or within half a unit. It is finite where
/// twice the exact one is within reach.
pub proof fn lemma_product_rounded(a: Double, b: Double, top: nat)
    requires
        a.finite(),
        b.finite(),
        a.value() >= 0,
        b.value() >= 0,
        a.value() * b.value() <= top * double::one(),
        top <= pow2(2097),
    ensures
        ({
            let r = a.product(b);
            let u = double::one() as int;
            let n = a.value() * b.value();
            &&& r.finite()
            &&& 0 <= r.value()
            &&& (r.value() * u - n) * (2 * PARTS) <= 2 * n + u * PARTS
            &&& (n - r.value() * u) * (2 * PARTS) <= 2 * n + u * PARTS
        }),
{
    let u = double::one();
    let x = units(a.magnitude());
    let y = units(b.magnitude());
    lemma_pow2_pos(1074);
    double::lemma_value_sign(a);
    double::lemma_value_sign(b);
    double::lemma_units_order(a.magnitude(), 0);
    double::lemma_units_order(b.magnitude(), 0);
    assert(a.value() == x);
    assert(b.value() == y);
    lemma_mul_basics(x as int);
    lemma_mul_basics(y as int);
    let m = round_ratio(x * y, u);
    assert((x * y) * 1 <= top * u);
    double::lemma_round_monotone(x * y, u, top, 1);
    lemma_room(top);
    lemma_rounded(x * y, u);
    lemma_close(units(m), x * y, u);
    double::lemma_signed(a.negative() != b.negative(), m);
    if a.negative() != b.negative() {
        assert(x * y == 0);
        double::lemma_round_exact(0);
        double::lemma_round_same(0, u, 0, 1);
        double::lemma_units_order(m, 0);
    }
}

/// The difference of numbers that are not below zero, the second one no larger.
pub proof fn lemma_difference_rounded(a: Double, b: Double)
    requires
        a.finite(),
        b.finite(),
        b.value() >= 0,
        a.value() >= b.value(),
        a.value() <= pow2(2097),
    ensures
        ({
            let r = a.difference(b);
            let n = a.value() - b.value();
            &&& r.finite()
            &&& 0 <= r.value()
            &&& (r.value() - n) * PARTS <= n
            &&& (n - r.value()) * PARTS <= n
        }),
{
    let c = b.opposite();
    double::lemma_signed(!b.negative(), b.magnitude());
    let n = a.value() - b.value();
    assert(c.value() == -b.value());
    if n == 0 {
        double::lemma_signed(a.negative() && c.negative(), 0);
        double::lemma_units_order(0, 0);
    } else {
        lemma_room(n as nat);
        lemma_rounded(n as nat, 1);
        let r = units(round_ratio(n as nat, 1));
        double::lemma_signed(false, round_ratio(n as nat, 1));
        assert(r * 1 == r);
    }
}

/// A product that came out finite lies close to the exact one.
pub proof fn lemma_product_near(a: Double, b: Double)
    requires
        a.finite(),
        b.finite(),
        a.value() >= 0,
        b.value() >= 0,
        a.product(b).finite(),
    ensures
        ({
            let r = a.product(b);
            let u = double::one() as int;
            let n = a.value() * b.value();
            &&& 0 <= r.value()
            &&& (r.value() * u - n) * (2 * PARTS) <= 2 * n + u * PARTS
            &&& (n - r.value() * u) * (2 * PARTS) <= 2 * n + u * PARTS
        }),
{
    let u = double::one();
    let x = units(a.magnitude());
    let y = units(b.magnitude());
    lemma_pow2_pos(1074);
    double::lemma_value_sign(a);
    double::lemma_value_sign(b);
    double::lemma_units_order(a.magnitude(), 0);
    double::lemma_units_order(b.magnitude(), 0);
    assert(a.value() == x);
    assert(b.value() == y);
    lemma_mul_basics(x as int);
    lemma_mul_basics(y as int);
    let m = round_ratio(x * y, u);
    double::lemma_signed(a.negative() != b.negative(), m);
    lemma_rounded(x * y, u);
    lemma_close(units(m), x * y, u);
    if a.negative() != b.negative() {
        assert(x * y == 0);
        double::lemma_round_exact(0);
        double::lemma_round_same(0, u, 0, 1);
        double::lemma_units_order(m, 0);
    }
}

/// A quotient that came out finite lies close to the exact one, and what was
/// divided was finite.
pub proof fn lemma_quotient_near(a: Double, b: Double)
    requires
        not_below_zero(a),
        b.finite(),
        b.value() > 0,
        a.quotient(b).finite(),
    ensures
        ({
            let r = a.quotient(b);
            let u = double::one() as int;
            let n = a.value() * u;
            &&& a.finite()
            &&& 0 <= r.value()
            &&& (r.value() * b.value() - n) * (2 * PARTS) <= 2 * n + b.value() * PARTS
            &&& (n - r.value() * b.value()) * (2 * PARTS) <= 2 * n + b.value() * PARTS
        }),
{
    let u = double::one();
    double::lemma_value_sign(a);
    double::lemma_value_sign(b);
    double::lemma_units_order(a.magnitude(), 0);
    double::lemma_units_order(b.magnitude(), 0);
    double::lemma_units_order(0, INFINITE as nat);
    double::lemma_signed(a.negative() != b.negative(), INFINITE as nat);
    assert(a.finite());
    let x = units(a.magnitude());
    let y = units(b.magnitude());
    assert(a.value() == x && b.value() == y);
    let m = round_ratio(x * u, y);
    double::lemma_signed(a.negative() != b.negative(), m);
    lemma_rounded(x * u, y);
    lemma_close(units(m), x * u, y);
    if a.negative() {
        assert(x == 0);
        assert(x * u == 0) by {
            lemma_mul_basics(u as int);
        }
        double::lemma_round_exact(0);
        double::lemma_round_same(0, y, 0, 1);
        double::lemma_units_order(m, 0);
    }
}

/// A larger number never gives a smaller share.
pub proof fn lemma_quotient_order(a: Double, b: Double, c: Double)
    requires
        a.at_most(b),
        !a.negative(),
        !b.negative(),
        c.finite(),
        !c.negative(),
        !c.zero(),
    ensures
        a.quotient(c).at_most(b.quotient(c)),
        !a.quotient(c).negative(),
        !b.quotient(c).negative(),
{
    let u = double::one();
    let x = units(a.magnitude());
    let y = units(b.magnitude());
    let w = units(c.magnitude());
    lemma_pow2_pos(1074);
    double::lemma_units_order(a.magnitude(), b.magnitude());
    double::lemma_units_order(c.magnitude(), 0);
    lemma_mul_inequality(x as int, y as int, u as int);
    lemma_mul_inequality((x * u) as int, (y * u) as int, w as int);
    double::lemma_round_monotone(x * u, w, y * u, w);
    let p = round_ratio(x * u, w);
    let q = round_ratio(y * u, w);
    double::lemma_signed(false, p);
    double::lemma_signed(false, q);
    double::lemma_signed(false, INFINITE as nat);
    double::lemma_units_order(p, q);
    double::lemma_units_order(p, INFINITE as nat);
    double::lemma_units_order(a.magnitude(), INFINITE as nat);
    double::lemma_units_order(b.magnitude(), INFINITE as nat);
}

} // verus!
