//! IEEE 754 binary64 arithmetic on bit patterns, proved against the exact
//! value that each operation is required to round.
//!
//! A finite double is a whole number of units of `2^-1074`, the smallest
//! positive double. Every operation below is stated as: take the exact result
//! in these units, as a fraction, and round it to the nearest double, ties to
//! the even one. NaN results are the one canonical quiet NaN.

use vstd::arithmetic::div_mod::*;
use vstd::arithmetic::mul::*;
use vstd::arithmetic::power2::*;
use vstd::prelude::*;

verus! {

/// `2^52`: the weight of the leading bit of a normal mantissa.
pub const HIDDEN: u64 = 0x0010_0000_0000_0000;

/// Magnitude bits of infinity.
pub const INFINITE: u64 = 0x7FF0_0000_0000_0000;

/// Magnitude bits of the canonical NaN.
pub const QUIET: u64 = 0x7FF8_0000_0000_0000;

/// The sign bit.
pub const SIGN: u64 = 0x8000_0000_0000_0000;

/// A double-precision number, held as its bit pattern.
#[derive(Clone, Copy, Debug, PartialEq, Eq, Structural)]
pub struct Double {
    pub bits: u64,
}

/// Number of binary digits of `n`.
pub open spec fn width(n: nat) -> nat
    decreases n,
{
    if n == 0 {
        0
    } else {
        1 + width(n / 2)
    }
}

/// The whole number nearest to `n / d`, ties to even.
pub open spec fn nearest_even(n: nat, d: nat) -> nat {
    let q = n / d;
    let r = n % d;
    if 2 * r > d || (2 * r == d && q % 2 == 1) {
        q + 1
    } else {
        q
    }
}

/// The binary exponent, in units, of the last mantissa bit that a double close
/// to `n / d` units has.
pub open spec fn scale(n: nat, d: nat) -> nat {
    let w = width(n / d);
    if w > 53 {
        (w - 53) as nat
    } else {
        0
    }
}

/// Magnitude bits of the double nearest to `n / d` units, ties to even.
pub open spec fn round_ratio(n: nat, d: nat) -> nat {
    let k = scale(n, d);
    let m = k * (HIDDEN as nat) + nearest_even(n, d * pow2(k));
    if m > INFINITE as nat {
        INFINITE as nat
    } else {
        m
    }
}

/// The exact value, in units, of the magnitude bits `m`.
pub open spec fn units(m: nat) -> nat {
    if m < HIDDEN as nat {
        m
    } else {
        (m % (HIDDEN as nat) + HIDDEN as nat) * pow2((m / (HIDDEN as nat) - 1) as nat)
    }
}

/// One, in units.
pub open spec fn one() -> nat {
    pow2(1074)
}

/// A double from its sign and magnitude bits.
pub open spec fn signed(negative: bool, magnitude: nat) -> Double {
    Double {
        bits: (magnitude + if negative {
            SIGN as nat
        } else {
            0
        }) as u64,
    }
}

impl Double {
    /// Whether the sign bit is set.
    pub open spec fn negative(self) -> bool {
        self.bits >= SIGN
    }

    /// The bits without the sign.
    pub open spec fn magnitude(self) -> nat {
        if self.bits >= SIGN {
            (self.bits - SIGN) as nat
        } else {
            self.bits as nat
        }
    }

    /// Whether it is no number.
    pub open spec fn nan(self) -> bool {
        self.magnitude() > INFINITE
    }

    /// Whether it is an infinity.
    pub open spec fn infinite(self) -> bool {
        self.magnitude() == INFINITE
    }

    /// Whether it is a finite number.
    pub open spec fn finite(self) -> bool {
        self.magnitude() < INFINITE
    }

    /// Whether it is a zero, of either sign.
    pub open spec fn zero(self) -> bool {
        self.magnitude() == 0
    }

    /// The exact value in units. For an infinity it is a number beyond every
    /// finite value, so that values of doubles other than NaN compare as the
    /// doubles do.
    pub open spec fn value(self) -> int {
        if self.negative() {
            -(units(self.magnitude()) as int)
        } else {
            units(self.magnitude()) as int
        }
    }

    /// The NaN that operations give.
    pub open spec fn not_a_number() -> Double {
        Double { bits: QUIET }
    }

    /// `self + other`.
    pub open spec fn sum(self, other: Double) -> Double {
        if self.nan() || other.nan() || (self.infinite() && other.infinite() && self.negative()
            != other.negative()) {
            Double::not_a_number()
        } else if self.infinite() {
            self
        } else if other.infinite() {
            other
        } else {
            let s = self.value() + other.value();
            if s == 0 {
                signed(self.negative() && other.negative(), 0)
            } else if s > 0 {
                signed(false, round_ratio(s as nat, 1))
            } else {
                signed(true, round_ratio((-s) as nat, 1))
            }
        }
    }

    /// `-self`.
    pub open spec fn opposite(self) -> Double {
        if self.nan() {
            Double::not_a_number()
        } else {
            signed(!self.negative(), self.magnitude())
        }
    }

    /// `self - other`.
    pub open spec fn difference(self, other: Double) -> Double {
        self.sum(other.opposite())
    }

    /// `self * other`.
    pub open spec fn product(self, other: Double) -> Double {
        let negative = self.negative() != other.negative();
        if self.nan() || other.nan() || (self.infinite() && other.zero()) || (self.zero()
            && other.infinite()) {
            Double::not_a_number()
        } else if self.infinite() || other.infinite() {
            signed(negative, INFINITE as nat)
        } else {
            signed(
                negative,
                round_ratio(units(self.magnitude()) * units(other.magnitude()), one()),
            )
        }
    }

    /// `self / other`.
    pub open spec fn quotient(self, other: Double) -> Double {
        let negative = self.negative() != other.negative();
        if self.nan() || other.nan() || (self.infinite() && other.infinite()) || (self.zero()
            && other.zero()) {
            Double::not_a_number()
        } else if self.infinite() || other.zero() {
            signed(negative, INFINITE as nat)
        } else if other.infinite() {
            signed(negative, 0)
        } else {
            signed(negative, round_ratio(units(self.magnitude()) * one(), units(other.magnitude())))
        }
    }

    /// `self < other`.
    pub open spec fn below(self, other: Double) -> bool {
        !self.nan() && !other.nan() && self.value() < other.value()
    }

    /// `self <= other`.
    pub open spec fn at_most(self, other: Double) -> bool {
        !self.nan() && !other.nan() && self.value() <= other.value()
    }

    /// `self == other` as numbers: the two zeros are equal, NaN equals nothing.
    pub open spec fn same_number(self, other: Double) -> bool {
        !self.nan() && !other.nan() && self.value() == other.value()
    }

    /// The larger of the two; the other one where one of them is NaN.
    pub open spec fn larger(self, other: Double) -> Double {
        if self.nan() || self.below(other) {
            other
        } else {
            self
        }
    }

    /// The smaller of the two; the other one where one of them is NaN.
    pub open spec fn smaller(self, other: Double) -> Double {
        if self.nan() || other.below(self) {
            other
        } else {
            self
        }
    }

    /// `self` held between `lo` and `hi`; NaN stays NaN.
    pub open spec fn clamped(self, lo: Double, hi: Double) -> Double {
        if self.below(lo) {
            lo
        } else if hi.below(self) {
            hi
        } else {
            self
        }
    }

    /// The number without its sign.
    pub open spec fn absolute(self) -> Double {
        signed(false, self.magnitude())
    }

    /// The double nearest to the whole number `n`.
    pub open spec fn whole(n: int) -> Double {
        if n < 0 {
            signed(true, round_ratio((-n) as nat * one(), 1))
        } else {
            signed(false, round_ratio(n as nat * one(), 1))
        }
    }

    /// The double nearest to `n / d`.
    pub open spec fn ratio(n: nat, d: nat) -> Double {
        signed(false, round_ratio(n * one(), d))
    }

    /// The number rounded to a whole one, halves away from zero.
    pub open spec fn to_whole(self) -> Double {
        if self.nan() {
            Double::not_a_number()
        } else if self.infinite() {
            self
        } else {
            let w = (2 * units(self.magnitude()) + one()) / (2 * one());
            signed(self.negative(), round_ratio(w * one(), 1))
        }
    }

    /// The double nearest to the number's own multiple of `1 / steps` that is
    /// nearest to it, ties to the even multiple: what printing the number with
    /// a fixed count of decimals and reading it back gives.
    pub open spec fn to_steps(self, steps: nat) -> Double {
        if self.nan() {
            Double::not_a_number()
        } else if self.infinite() {
            self
        } else {
            let w = nearest_even(units(self.magnitude()) * steps, one());
            signed(self.negative(), round_ratio(w * one(), steps))
        }
    }

    /// The number cut to a whole one and held in the range of `i64`; 0 for NaN.
    pub open spec fn truncated(self) -> int {
        if self.nan() {
            0
        } else {
            let w = units(self.magnitude()) / one();
            if self.negative() {
                if w > 0x8000_0000_0000_0000 {
                    i64::MIN as int
                } else {
                    -(w as int)
                }
            } else if w > i64::MAX {
                i64::MAX as int
            } else {
                w as int
            }
        }
    }
}

// ---------------------------------------------------------------------------
// Powers of two and digit counts
// ---------------------------------------------------------------------------

pub proof fn lemma_width(n: nat)
    ensures
        n < pow2(width(n)),
        n > 0 ==> width(n) > 0 && pow2((width(n) - 1) as nat) <= n,
    decreases n,
{
    lemma2_to64();
    if n > 0 {
        lemma_width(n / 2);
        lemma_pow2_unfold(width(n));
        if n / 2 > 0 {
            lemma_pow2_unfold((width(n) - 1) as nat);
        }
    }
}

pub proof fn lemma_pow2_order(a: nat, b: nat)
    requires
        a <= b,
    ensures
        0 < pow2(a) <= pow2(b),
{
    lemma_pow2_pos(a);
    if a < b {
        lemma_pow2_strictly_increases(a, b);
    }
}

proof fn lemma_width_is(n: nat, w: nat)
    requires
        w > 0,
        pow2((w - 1) as nat) <= n < pow2(w),
    ensures
        width(n) == w,
{
    lemma_width(n);
    lemma_pow2_pos((w - 1) as nat);
    if width(n) > w {
        lemma_pow2_order(w, (width(n) - 1) as nat);
    }
    if width(n) < w {
        lemma_pow2_order(width(n), (w - 1) as nat);
    }
}

pub proof fn lemma_width_at_most(n: nat, w: nat)
    requires
        n < pow2(w),
    ensures
        width(n) <= w,
{
    lemma_width(n);
    if width(n) > w {
        lemma_pow2_order(w, (width(n) - 1) as nat);
    }
}

/// Dropping `j` low digits shortens a number by `j` digits.
proof fn lemma_width_shift(n: nat, j: nat)
    ensures
        width(n / pow2(j)) == if width(n) > j {
            width(n) - j
        } else {
            0
        },
{
    let w = width(n);
    let d = pow2(j);
    lemma_pow2_pos(j);
    lemma_width(n);
    lemma_fundamental_div_mod(n as int, d as int);
    let q = n / d;
    if w > j {
        let v = (w - j) as nat;
        lemma_pow2_adds(j, v);
        lemma_pow2_adds(j, (v - 1) as nat);
        assert(q < pow2(v)) by (nonlinear_arith)
            requires
                n < d * pow2(v),
                n == d * q + n % d,
                n % d >= 0,
                d > 0,
        ;
        assert(pow2((v - 1) as nat) <= q) by (nonlinear_arith)
            requires
                n >= d * pow2((v - 1) as nat),
                n == d * q + n % d,
                n % d < d,
                d > 0,
        ;
        lemma_width_is(q, v);
    } else {
        lemma_pow2_order(w, j);
        lemma_basic_div(n as int, d as int);
    }
}


proof fn lemma_width_times(n: nat, j: nat)
    requires
        n > 0,
    ensures
        width(n * pow2(j)) == width(n) + j,
{
    let w = width(n);
    let d = pow2(j);
    lemma_width(n);
    lemma_pow2_pos(j);
    lemma_pow2_adds(w, j);
    lemma_pow2_adds((w - 1) as nat, j);
    assert(n * d < pow2(w) * d) by (nonlinear_arith)
        requires
            n < pow2(w),
            d > 0,
    ;
    assert(pow2((w - 1) as nat) * d <= n * d) by (nonlinear_arith)
        requires
            pow2((w - 1) as nat) <= n,
            d > 0,
    ;
    lemma_width_is(n * d, w + j);
}

// ---------------------------------------------------------------------------
// Facts about rounding
// ---------------------------------------------------------------------------

/// A common factor of both sides of a fraction drops out of its nearest whole number.
pub proof fn lemma_nearest_cancel(n: nat, d: nat, c: nat)
    requires
        d > 0,
        c > 0,
    ensures
        nearest_even(n * c, d * c) == nearest_even(n, d),
        (n * c) / (d * c) == n / d,
{
    let q = n / d;
    let r = n % d;
    lemma_fundamental_div_mod(n as int, d as int);
    assert(n * c == (d * c) * q + r * c && 0 <= r * c < d * c && d * c > 0) by (nonlinear_arith)
        requires
            n == d * q + r,
            0 <= r < d,
            c > 0,
            d > 0,
    ;
    lemma_mul_is_commutative((d * c) as int, q as int);
    lemma_fundamental_div_mod_converse((n * c) as int, (d * c) as int, q as int, (r * c) as int);
    assert((2 * (r * c) > d * c) == (2 * r > d)) by (nonlinear_arith)
        requires
            c > 0,
    ;
    assert((2 * (r * c) == d * c) == (2 * r == d)) by (nonlinear_arith)
        requires
            c > 0,
    ;
}

proof fn lemma_round_cancel(n: nat, d: nat, c: nat)
    requires
        d > 0,
        c > 0,
    ensures
        round_ratio(n * c, d * c) == round_ratio(n, d),
{
    lemma_nearest_cancel(n, d, c);
    let k = scale(n, d);
    lemma_pow2_pos(k);
    assert(d * pow2(k) > 0) by (nonlinear_arith)
        requires
            d > 0,
            pow2(k) > 0,
    ;
    lemma_nearest_cancel(n, d * pow2(k), c);
    assert((d * c) * pow2(k) == (d * pow2(k)) * c) by (nonlinear_arith);
}

/// `n * 2^s` as a fraction: its numerator.
pub open spec fn shifted_num(n: nat, s: int) -> nat {
    if s >= 0 {
        n * pow2(s as nat)
    } else {
        n
    }
}

/// `n * 2^s` as a fraction: its denominator.
pub open spec fn shifted_den(s: int) -> nat {
    if s >= 0 {
        1
    } else {
        pow2((-s) as nat)
    }
}

proof fn lemma_round_shifted(n: nat, up: nat, down: nat)
    ensures
        round_ratio(n * pow2(up), pow2(down)) == round_ratio(
            shifted_num(n, up - down),
            shifted_den(up - down),
        ),
{
    let s = up - down;
    lemma_pow2_pos(up);
    lemma_pow2_pos(down);
    if s >= 0 {
        lemma_pow2_adds(s as nat, down);
        lemma_mul_is_associative(n as int, pow2(s as nat) as int, pow2(down) as int);
        lemma_round_cancel(n * pow2(s as nat), 1, pow2(down));
    } else {
        let j = (-s) as nat;
        lemma_pow2_pos(j);
        lemma_pow2_adds(j, up);
        lemma_round_cancel(n, pow2(j), pow2(up));
    }
}

/// A quotient and one more bit that says whether a remainder was left round as
/// the exact fraction does, once at least one bit is dropped.
proof fn lemma_nearest_sticky(n: nat, d: nat, q: nat, r: nat, j: nat)
    requires
        d > 0,
        n == q * d + r,
        r < d,
        j >= 1,
    ensures
        nearest_even(n, d * pow2(j)) == nearest_even(
            2 * q + if r > 0 {
                1nat
            } else {
                0
            },
            pow2(j + 1),
        ),
{
    let st: nat = if r > 0 {
        1
    } else {
        0
    };
    let t = pow2(j);
    let h = pow2((j - 1) as nat);
    lemma_pow2_pos(j);
    lemma_pow2_unfold(j);
    lemma_pow2_unfold(j + 1);
    let a = q / t;
    let b = q % t;
    lemma_fundamental_div_mod(q as int, t as int);
    // n over d * t
    assert(n == (d * t) * a + (b * d + r) && 0 <= b * d + r < d * t && d * t > 0)
        by (nonlinear_arith)
        requires
            n == q * d + r,
            q == t * a + b,
            0 <= b < t,
            0 <= r < d,
            d > 0,
            t > 0,
    ;
    lemma_mul_is_commutative((d * t) as int, a as int);
    lemma_fundamental_div_mod_converse(n as int, (d * t) as int, a as int, (b * d + r) as int);
    // 2q + st over 2t
    assert(2 * q + st == (2 * t) * a + (2 * b + st)) by (nonlinear_arith)
        requires
            q == t * a + b,
    ;
    lemma_mul_is_commutative((2 * t) as int, a as int);
    lemma_fundamental_div_mod_converse(
        (2 * q + st) as int,
        (2 * t) as int,
        a as int,
        (2 * b + st) as int,
    );
    // both remainders stand to the half alike
    if b < h {
        assert(2 * (b * d + r) < d * t) by (nonlinear_arith)
            requires
                b + 1 <= h,
                t == 2 * h,
                r < d,
                d > 0,
        ;
    } else if b == h {
        assert(2 * (b * d + r) == d * t + 2 * r) by (nonlinear_arith)
            requires
                b == h,
                t == 2 * h,
        ;
    } else {
        assert(2 * (b * d + r) > d * t) by (nonlinear_arith)
            requires
                b >= h + 1,
                t == 2 * h,
                r >= 0,
                d > 0,
        ;
    }
}

/// A quotient and one more bit that says whether a remainder was left round to
/// the same double as the exact fraction, times any power of two.
#[verifier::spinoff_prover]
pub proof fn lemma_round_sticky(n: nat, d: nat, q: nat, r: nat, u: int)
    requires
        d > 0,
        n == q * d + r,
        r < d,
        width(q) >= 55,
    ensures
        round_ratio(
            shifted_num(n, u),
            d * shifted_den(u),
        ) == round_ratio(
            shifted_num(
                2 * q + if r > 0 {
                    1nat
                } else {
                    0
                },
                u - 1,
            ),
            shifted_den(u - 1),
        ),
{
    let st: nat = if r > 0 {
        1
    } else {
        0
    };
    let p = 2 * q + st;
    let w = width(q);
    if u >= 1 {
        let c = pow2(u as nat);
        let c1 = pow2((u - 1) as nat);
        lemma_pow2_pos(u as nat);
        lemma_pow2_pos((u - 1) as nat);
        lemma_pow2_unfold(u as nat);
        // the left quotient
        let f = (n * c) / d;
        lemma_fundamental_div_mod((n * c) as int, d as int);
        let g = (n * c) % d;
        assert(q * c <= f < (q + 1) * c) by (nonlinear_arith)
            requires
                n * c == d * f + g,
                0 <= g < d,
                n == q * d + r,
                0 <= r < d,
                c > 0,
                d > 0,
        ;
        assert(q * c <= p * c1 < (q + 1) * c) by (nonlinear_arith)
            requires
                c == 2 * c1,
                c1 > 0,
                p == 2 * q + st,
                0 <= st <= 1,
        ;
        lemma_width(q);
        lemma_pow2_adds(w, u as nat);
        lemma_pow2_adds((w - 1) as nat, u as nat);
        assert((q + 1) * c <= pow2(w) * c) by (nonlinear_arith)
            requires
                q + 1 <= pow2(w),
                c > 0,
        ;
        assert(pow2((w - 1) as nat) * c <= q * c) by (nonlinear_arith)
            requires
                pow2((w - 1) as nat) <= q,
                c > 0,
        ;
        lemma_width_is(f, w + u as nat);
        lemma_width_is(p * c1, w + u as nat);
        let k = (w + u as nat - 53) as nat;
        lemma_div_basics((p * c1) as int);
        let j = (k - u) as nat;
        lemma_pow2_adds(j, u as nat);
        lemma_pow2_adds(j + 1, (u - 1) as nat);
        lemma_pow2_pos(j);
        lemma_pow2_pos(j + 1);
        assert(d * pow2(j) > 0) by (nonlinear_arith)
            requires
                d > 0,
                pow2(j) > 0,
        ;
        lemma_nearest_cancel(n, d * pow2(j), c);
        assert((d * pow2(j)) * c == d * pow2(k)) by (nonlinear_arith)
            requires
                pow2(k) == pow2(j) * c,
        ;
        lemma_nearest_cancel(p, pow2(j + 1), c1);
        lemma_nearest_sticky(n, d, q, r, j);
        let num = shifted_num(n, u);
        let den = d * shifted_den(u);
        assert(num == n * c && den == d);
        assert(scale(num, den) == k);
        assert(nearest_even(num, den * pow2(k)) == nearest_even(n, d * pow2(j)));
        let num2 = shifted_num(p, u - 1);
        let den2 = shifted_den(u - 1);
        assert(num2 == p * c1 && den2 == 1);
        assert(scale(num2, den2) == k);
        assert(1 * pow2(k) == pow2(j + 1) * c1);
        assert(nearest_even(num2, den2 * pow2(k)) == nearest_even(p, pow2(j + 1)));
    } else {
        let v = (-u) as nat;
        let t = pow2(v);
        lemma_pow2_pos(v);
        lemma_pow2_unfold(v + 1);
        // both quotients are q / t
        lemma_fundamental_div_mod_converse(n as int, d as int, q as int, r as int);
        lemma_div_denominator(n as int, d as int, t as int);
        lemma_div_denominator(p as int, 2, t as int);
        assert(p as int / 2 == q);
        let k = scale(n, d * t);
        assert(d * shifted_den(u) == d * t) by {
            if u == 0 {
                lemma2_to64();
            }
        }
        assert(shifted_num(n, u) == n) by {
            if u == 0 {
                lemma2_to64();
                assert(n * 1 == n);
            }
        }
        lemma_pow2_pos(k);
        let j = v + k;
        if v == 0 {
            lemma2_to64();
            assert(n / (d * t) == q);
        }
        lemma_nearest_sticky(n, d, q, r, j);
        lemma_pow2_adds(v, k);
        lemma_pow2_adds(v + 1, k);
        assert((d * t) * pow2(k) == d * pow2(j)) by (nonlinear_arith)
            requires
                pow2(j) == t * pow2(k),
        ;
        let num2 = shifted_num(p, u - 1);
        let den2 = shifted_den(u - 1);
        assert(num2 == p && den2 == pow2(v + 1));
        assert(p / den2 == n / (d * t));
        assert(scale(num2, den2) == k);
        assert(den2 * pow2(k) == pow2(j + 1));
    }
}

/// Rounding gives a representable number back.
pub proof fn lemma_round_exact(m: nat)
    requires
        m < INFINITE,
    ensures
        round_ratio(units(m), 1) == m,
{
    lemma_round_close(m, 0, true);
}

/// A number less than an eighth of a mantissa step away from a double rounds to
/// that double.
proof fn lemma_round_close(m: nat, t: nat, above: bool)
    requires
        m < INFINITE,
        t == 0 || (m >= 4 * HIDDEN && 8 * t < pow2((m / (HIDDEN as nat) - 1) as nat)),
    ensures
        above ==> round_ratio(units(m) + t, 1) == m,
        !above ==> t <= units(m) && round_ratio((units(m) - t) as nat, 1) == m,
{
    let h = HIDDEN as nat;
    lemma2_to64();
    lemma2_to64_rest();
    if m < h {
        lemma_width_at_most(m, 53);
        assert(m / 1 == m);
        assert(m % 1 == 0);
        lemma2_to64();
    } else {
        let e = (m / h - 1) as nat;
        let a = m % h + h;
        let c = pow2(e);
        lemma_pow2_pos(e);
        lemma_pow2_adds(53, e);
        lemma_pow2_adds(52, e);
        assert(m == e * h + a);
        if above || t == 0 {
            let v = a * c + t;
            assert(v < pow2(53) * c) by (nonlinear_arith)
                requires
                    v == a * c + t,
                    a + 1 <= pow2(53),
                    t < c,
                    c > 0,
            ;
            assert(pow2(52) * c <= v) by (nonlinear_arith)
                requires
                    v == a * c + t,
                    a >= pow2(52),
                    t >= 0,
                    c > 0,
            ;
            lemma_width_is(v, 53 + e);
            lemma_mul_is_commutative(a as int, c as int);
            lemma_fundamental_div_mod_converse(v as int, c as int, a as int, t as int);
        } else {
            let v = a * c - t;
            if a > h {
                assert(pow2(52) * c <= v < pow2(53) * c) by (nonlinear_arith)
                    requires
                        v == a * c - t,
                        pow2(52) + 1 <= a,
                        a < pow2(53),
                        0 < t < c,
                        c > 0,
                ;
                lemma_width_is(v as nat, 53 + e);
                assert(v == (a - 1) * c + (c - t)) by (nonlinear_arith)
                    requires
                        v == a * c - t,
                ;
                lemma_fundamental_div_mod_converse(v, c as int, a - 1, c - t);
            } else {
                let c1 = pow2((e - 1) as nat);
                lemma_pow2_unfold(e);
                lemma_pow2_adds(53, (e - 1) as nat);
                lemma_pow2_adds(52, (e - 1) as nat);
                assert(pow2(52) * c1 <= v < pow2(53) * c1) by (nonlinear_arith)
                    requires
                        v == a * c - t,
                        a == pow2(52),
                        pow2(53) == 2 * pow2(52),
                        pow2(52) >= 1,
                        c == 2 * c1,
                        0 < 4 * t < c1,
                ;
                lemma_width_is(v as nat, (52 + e) as nat);
                assert(v == (pow2(53) - 1) * c1 + (c1 - t)) by (nonlinear_arith)
                    requires
                        v == a * c - t,
                        a == pow2(52),
                        pow2(53) == 2 * pow2(52),
                        c == 2 * c1,
                ;
                lemma_fundamental_div_mod_converse(v, c1 as int, pow2(53) - 1, c1 - t);
            }
        }
    }
}


// ---------------------------------------------------------------------------
// Executable rounding
// ---------------------------------------------------------------------------

/// `2^n`.
fn two_to(n: u32) -> (r: u128)
    requires
        n <= 127,
    ensures
        r == pow2(n as nat),
        r > 0,
{
    let top: u128 = 0x8000_0000_0000_0000_0000_0000_0000_0000;
    proof {
        lemma2_to64();
        lemma2_to64_rest();
        lemma_pow2_adds(64, 63);
        assert(top == pow2(127));
        vstd::bits::lemma_u128_shr_is_div(top, (127 - n) as u128);
        lemma_pow2_subtracts((127 - n) as nat, 127);
        lemma_pow2_pos(n as nat);
    }
    top >> (127 - n)
}

/// Number of binary digits of `p`.
fn width_of(p: u128) -> (w: u32)
    ensures
        w == width(p as nat),
        w <= 128,
{
    let mut n: u128 = p;
    let mut w: u32 = 0;
    let mut step: u32 = 64;
    proof {
        lemma2_to64();
        lemma_pow2_adds(64, 64);
        lemma2_to64_rest();
    }
    while step > 0
        invariant
            step == 64 || step == 32 || step == 16 || step == 8 || step == 4 || step == 2 || step
                == 1 || step == 0,
            step > 0 ==> n < pow2((2 * step) as nat),
            step == 0 ==> n <= 1,
            width(p as nat) == w + width(n as nat),
            w + 2 * step <= 128,
            step == 0 ==> w <= 127,
        decreases step,
    {
        let d: u128 = two_to(step);
        if n >= d {
            let q: u128 = n >> step;
            proof {
                vstd::bits::lemma_u128_shr_is_div(n, step as u128);
                lemma_width_shift(n as nat, step as nat);
                lemma_width(n as nat);
                if width(n as nat) <= step {
                    lemma_pow2_order(width(n as nat), step as nat);
                }
                lemma_pow2_adds(step as nat, step as nat);
                assert(q < d) by (nonlinear_arith)
                    requires
                        q == n / d,
                        n < d * d,
                        d > 0,
                ;
            }
            n = q;
            w = w + step;
        }
        proof {
            lemma2_to64();
        }
        step = step / 2;
    }
    assert(width(1) == 1) by {
        assert(width(0) == 0);
    }
    w + n as u32
}

/// Magnitude bits of the double nearest to `p * 2^s` units.
pub(crate) fn round_shifted(p: u128, s: i32) -> (m: u64)
    requires
        p < pow2(127),
        -5000 <= s <= 5000,
    ensures
        m == round_ratio(shifted_num(p as nat, s as int), shifted_den(s as int)),
        m <= INFINITE,
{
    let ghost num = shifted_num(p as nat, s as int);
    let ghost den = shifted_den(s as int);
    proof {
        lemma2_to64();
        lemma2_to64_rest();
        if s >= 0 {
            lemma_pow2_pos(s as nat);
            lemma_div_basics(num as int);
        } else {
            lemma_pow2_pos((-s) as nat);
        }
    }
    if p == 0 {
        proof {
            assert(num == 0);
            assert(0nat / den == 0) by {
                lemma_div_basics_2(den as int);
                lemma_basic_div(0, den as int);
            }
            assert(scale(0, den) == 0);
            lemma_small_mod(0, den);
            assert(den * pow2(0) == den);
        }
        return 0;
    }
    let w: i32 = width_of(p) as i32;
    let k: i32 = if w + s > 53 {
        w + s - 53
    } else {
        0
    };
    proof {
        if s >= 0 {
            lemma_width_times(p as nat, s as nat);
        } else {
            lemma_width_shift(p as nat, (-s) as nat);
        }
        assert(scale(num, den) == k);
    }
    if k > 2046 {
        return INFINITE;
    }
    let sh: i32 = k - s;
    let ghost part = nearest_even(num, den * pow2(k as nat));
    let mant: u64;
    if sh <= 0 {
        let c: u128 = two_to_checked(-sh, p, w);
        let m: u128 = p * c;
        proof {
            // s >= k >= 0, and nothing is dropped
            let j = (-sh) as nat;
            lemma_pow2_adds(j, k as nat);
            lemma_pow2_pos(k as nat);
            assert(num == (p * c) * pow2(k as nat)) by (nonlinear_arith)
                requires
                    num == p * pow2(s as nat),
                    pow2(s as nat) == c * pow2(k as nat),
            ;
            lemma_nearest_cancel(m as nat, 1, pow2(k as nat));
            lemma_div_basics(m as int);
            assert(m as nat % 1 == 0);
            assert(part == m);
        }
        mant = m as u64;
    } else {
        proof {
            // the fraction is p over 2^sh
            lemma_pow2_pos(sh as nat);
            if s >= 0 {
                lemma_pow2_adds(sh as nat, s as nat);
                lemma_nearest_cancel(p as nat, pow2(sh as nat), pow2(s as nat));
                assert(part == nearest_even(p as nat, pow2(sh as nat))) by {
                    assert(1 * pow2(k as nat) == pow2(k as nat));
                }
            } else {
                lemma_pow2_adds((-s) as nat, k as nat);
            }
            assert(part == nearest_even(p as nat, pow2(sh as nat)));
        }
        if sh >= 128 {
            proof {
                lemma_pow2_order(128, sh as nat);
                lemma_pow2_unfold(128);
                lemma_basic_div(p as int, pow2(sh as nat) as int);
                lemma_small_mod(p as nat, pow2(sh as nat));
            }
            mant = 0;
        } else {
            let d: u128 = two_to(sh as u32);
            let q: u128 = p >> (sh as u32);
            proof {
                vstd::bits::lemma_u128_shr_is_div(p, sh as u128);
                lemma_fundamental_div_mod(p as int, d as int);
                lemma_mul_is_commutative(q as int, d as int);
                lemma_remainder(p as int, d as int);
            }
            let r: u128 = p - q * d;
            proof {
                lemma_pow2_unfold(sh as nat);
                lemma_width_shift(p as nat, sh as nat);
                lemma_width(q as nat);
                if width(q as nat) < 53 {
                    lemma_pow2_order(width(q as nat), 53);
                }
            }
            let half: u128 = d / 2;
            let up: bool = r > half || (r == half && q % 2 == 1);
            mant = if up {
                q as u64 + 1
            } else {
                q as u64
            };
        }
    }
    let m: u64 = k as u64 * HIDDEN + mant;
    if m > INFINITE {
        INFINITE
    } else {
        m
    }
}

/// `2^n` for a shift that keeps `p`, of `w` digits, within 53 digits.
fn two_to_checked(n: i32, p: u128, w: i32) -> (c: u128)
    requires
        0 <= n,
        p > 0,
        w == width(p as nat),
        w + n <= 53,
    ensures
        c == pow2(n as nat),
        p * c < 0x20_0000_0000_0000,
{
    proof {
        lemma_width(p as nat);
        lemma_width_times(p as nat, n as nat);
        lemma_width(p as nat * pow2(n as nat));
        lemma_pow2_order((w + n) as nat, 53);
        lemma2_to64_rest();
        lemma2_to64();
    }
    two_to(n as u32)
}


/// Mantissa and exponent of magnitude bits.
pub(crate) fn split(m: u64) -> (r: (u64, i32))
    requires
        m <= INFINITE,
    ensures
        r.0 < 0x20_0000_0000_0000,
        0 <= r.1 <= 2046,
        units(m as nat) == r.0 * pow2(r.1 as nat),
        r.1 == if m < 2 * HIDDEN {
            0
        } else {
            m as nat / (HIDDEN as nat) - 1
        },
        r.1 > 0 ==> r.0 >= HIDDEN,
        m == 0 <==> r.0 == 0,
{
    proof {
        lemma2_to64();
        lemma_mul_basics(m as int);
    }
    if m < HIDDEN {
        (m, 0)
    } else {
        (m % HIDDEN + HIDDEN, (m / HIDDEN - 1) as i32)
    }
}

/// Magnitude bits of the double nearest to `n / d * 2^e` units.
fn round_quotient(n: u128, e: i32, d: u64) -> (m: u64)
    requires
        d > 0,
        n < 0x2000_0000_0000_0000_0000_0000_0000_0000,
        -4000 <= e <= 4000,
    ensures
        m == round_ratio(shifted_num(n as nat, e as int), d as nat * shifted_den(e as int)),
        m <= INFINITE,
{
    proof {
        lemma2_to64();
        lemma2_to64_rest();
        lemma_pow2_adds(63, 64);
        lemma_pow2_adds(61, 64);
    }
    if n == 0 {
        proof {
            let den = d as nat * shifted_den(e as int);
            if e < 0 {
                lemma_pow2_pos((-e) as nat);
            }
            assert(den > 0) by (nonlinear_arith)
                requires
                    d > 0,
                    shifted_den(e as int) > 0,
                    den == d as nat * shifted_den(e as int),
            ;
            assert(shifted_num(0, e as int) == 0) by {
                if e >= 0 {
                    lemma_mul_basics(pow2(e as nat) as int);
                }
            }
            lemma_basic_div(0, den as int);
            lemma_small_mod(0, den);
            assert(scale(0, den) == 0);
            assert(den * pow2(0) == den);
        }
        return 0;
    }
    let w: u32 = width_of(n);
    proof {
        lemma_width_at_most(n as nat, 125);
        lemma_width(n as nat);
    }
    // n, moved up to 126 digits
    let up: u32 = 126 - w;
    let c: u128 = two_to(up);
    proof {
        lemma_pow2_adds(w as nat, up as nat);
        lemma_pow2_adds((w - 1) as nat, up as nat);
        assert(pow2(125) <= n * c < pow2(126)) by (nonlinear_arith)
            requires
                pow2((w - 1) as nat) <= n < pow2(w as nat),
                pow2(126) == pow2(w as nat) * c,
                pow2(125) == pow2((w - 1) as nat) * c,
                c > 0,
        ;
        lemma_pow2_unfold(127);
        lemma_pow2_unfold(126);
    }
    let big: u128 = n * c;
    let q: u128 = big / d as u128;
    let r: u128 = big % d as u128;
    proof {
        lemma_fundamental_div_mod(big as int, d as int);
        lemma_mul_is_commutative(q as int, d as int);
        assert(q >= pow2(61)) by (nonlinear_arith)
            requires
                big == d * q + r,
                r < d,
                big >= pow2(61) * pow2(64),
                d < pow2(64),
                pow2(61) > 0,
        ;
        assert(q <= big) by (nonlinear_arith)
            requires
                big == d * q + r,
                d >= 1,
                q >= 0,
                r >= 0,
        ;
        lemma_width(q as nat);
        if width(q as nat) < 55 {
            lemma_pow2_order(width(q as nat), 61);
        }
    }
    let p: u128 = 2 * q + if r > 0 {
        1
    } else {
        0
    };
    let u: i32 = e - up as i32;
    proof {
        lemma_round_sticky(big as nat, d as nat, q as nat, r as nat, u as int);
        // undo the move of n
        let num = shifted_num(n as nat, e as int);
        let den = d as nat * shifted_den(e as int);
        lemma_pow2_pos(up as nat);
        if e >= 0 {
            lemma_pow2_pos(e as nat);
        } else {
            lemma_pow2_pos((-e) as nat);
        }
        assert(den > 0) by (nonlinear_arith)
            requires
                d > 0,
                shifted_den(e as int) > 0,
                den == d as nat * shifted_den(e as int),
        ;
        lemma_quotient_scale(n as nat, d as nat, e as int, up as nat);
    }
    round_shifted(p, u - 1)
}

/// Moving the numerator up by some digits and the exponent down by as many
/// leaves the rounded fraction as it is.
proof fn lemma_quotient_scale(n: nat, d: nat, e: int, up: nat)
    requires
        d > 0,
    ensures
        round_ratio(shifted_num(n * pow2(up), e - up), d * shifted_den(e - up)) == round_ratio(
            shifted_num(n, e),
            d * shifted_den(e),
        ),
{
    let u = e - up;
    lemma_pow2_pos(up);
    lemma2_to64();
    if u >= 0 {
        lemma_pow2_adds(up, u as nat);
        lemma_mul_is_associative(n as int, pow2(up) as int, pow2(u as nat) as int);
    } else if e >= 0 {
        // n 2^up over d 2^-u  is  n 2^e over d, both times 2^-u
        let v = (-u) as nat;
        lemma_pow2_pos(v);
        lemma_pow2_adds(e as nat, v);
        lemma_mul_is_associative(n as int, pow2(e as nat) as int, pow2(v) as int);
        lemma_round_cancel(n * pow2(e as nat), d, pow2(v));
    } else {
        let v = (-u) as nat;
        let f = (-e) as nat;
        lemma_pow2_pos(f);
        lemma_pow2_adds(f, up);
        lemma_mul_is_associative(d as int, pow2(f) as int, pow2(up) as int);
        assert(d * pow2(f) > 0) by (nonlinear_arith)
            requires
                d > 0,
                pow2(f) > 0,
        ;
        lemma_round_cancel(n, d * pow2(f), pow2(up));
    }
}

pub proof fn lemma_nearest_monotone(a: nat, b: nat, d: nat)
    requires
        d > 0,
        a <= b,
    ensures
        nearest_even(a, d) <= nearest_even(b, d),
        a / d <= nearest_even(a, d) <= a / d + 1,
{
    lemma_div_is_ordered(a as int, b as int, d as int);
    lemma_fundamental_div_mod(a as int, d as int);
    lemma_fundamental_div_mod(b as int, d as int);
    if a / d == b / d {
        assert(d * (a / d) == d * (b / d));
    }
}

proof fn lemma_width_monotone(a: nat, b: nat)
    requires
        a <= b,
    ensures
        width(a) <= width(b),
{
    lemma_width(b);
    lemma_width_at_most(a, width(b));
}

/// Rounding keeps the order of fractions over one denominator.
proof fn lemma_round_monotone_over(a: nat, b: nat, d: nat)
    requires
        d > 0,
        a <= b,
    ensures
        round_ratio(a, d) <= round_ratio(b, d),
{
    let h = HIDDEN as nat;
    let k = scale(a, d);
    let j = scale(b, d);
    lemma2_to64();
    lemma2_to64_rest();
    lemma_pow2_pos(k);
    lemma_pow2_pos(j);
    lemma_div_is_ordered(a as int, b as int, d as int);
    lemma_width_monotone(a / d, b / d);
    let dk = d * pow2(k);
    let dj = d * pow2(j);
    assert(dk > 0 && dj > 0) by (nonlinear_arith)
        requires
            d > 0,
            pow2(k) > 0,
            pow2(j) > 0,
            dk == d * pow2(k),
            dj == d * pow2(j),
    ;
    if k == j {
        lemma_nearest_monotone(a, b, dk);
    } else {
        // b has a longer whole part, which fills its mantissa
        lemma_nearest_monotone(a, a, dk);
        lemma_nearest_monotone(b, b, dj);
        lemma_width(a / d);
        lemma_width(b / d);
        lemma_pow2_adds(53, k);
        lemma_pow2_adds(52, j);
        if width(a / d) < 53 + k {
            lemma_pow2_order(width(a / d), 53 + k);
        }
        lemma_div_denominator(a as int, d as int, pow2(k) as int);
        lemma_div_denominator(b as int, d as int, pow2(j) as int);
        assert((a / d) / pow2(k) < 2 * h) by {
            lemma_multiply_divide_lt((a / d) as int, pow2(k) as int, (2 * h) as int);
        }
        assert((b / d) / pow2(j) >= h) by {
            lemma_div_multiples_vanish(h as int, pow2(j) as int);
            lemma_mul_is_commutative(h as int, pow2(j) as int);
            lemma_div_is_ordered((h * pow2(j)) as int, (b / d) as int, pow2(j) as int);
        }
        assert(j * h >= (k + 1) * h) by (nonlinear_arith)
            requires
                j >= k + 1,
        ;
        assert((k + 1) * h == k * h + h) by (nonlinear_arith);
    }
}

/// Rounding keeps the order of fractions: a smaller fraction never rounds to a
/// larger double.
pub proof fn lemma_round_monotone(n1: nat, d1: nat, n2: nat, d2: nat)
    requires
        d1 > 0,
        d2 > 0,
        n1 * d2 <= n2 * d1,
    ensures
        round_ratio(n1, d1) <= round_ratio(n2, d2),
{
    lemma_round_cancel(n1, d1, d2);
    lemma_round_cancel(n2, d2, d1);
    lemma_mul_is_commutative(d1 as int, d2 as int);
    assert(d1 * d2 > 0) by (nonlinear_arith)
        requires
            d1 > 0,
            d2 > 0,
    ;
    lemma_round_monotone_over(n1 * d2, n2 * d1, d1 * d2);
}

/// Distinct magnitudes have distinct values, in the same order.
pub proof fn lemma_units_increase(a: nat, b: nat)
    requires
        a < b,
    ensures
        units(a) < units(b),
{
    let h = HIDDEN as nat;
    lemma2_to64();
    let fa = a / h;
    let fb = b / h;
    if b < h {
    } else if a < h {
        let c = pow2((fb - 1) as nat);
        lemma_pow2_pos((fb - 1) as nat);
        assert(units(b) >= h) by (nonlinear_arith)
            requires
                units(b) == (b % h + h) * c,
                c >= 1,
                b % h >= 0,
                h > 0,
        ;
    } else if fa == fb {
        let c = pow2((fb - 1) as nat);
        lemma_pow2_pos((fb - 1) as nat);
        lemma_mul_strict_inequality((a % h + h) as int, (b % h + h) as int, c as int);
    } else {
        let c = pow2((fa - 1) as nat);
        let d = pow2((fb - 1) as nat);
        lemma_pow2_pos((fa - 1) as nat);
        lemma_pow2_order(fa, (fb - 1) as nat);
        lemma_pow2_unfold(fa);
        lemma_mul_strict_inequality((a % h + h) as int, (2 * h) as int, c as int);
        assert(units(b) >= h * d) by (nonlinear_arith)
            requires
                units(b) == (b % h + h) * d,
                b % h >= 0,
                d >= 1,
        ;
        assert(h * d >= 2 * h * c) by (nonlinear_arith)
            requires
                d >= 2 * c,
                h > 0,
        ;
    }
}

pub proof fn lemma_units_order(a: nat, b: nat)
    ensures
        units(a) < units(b) <==> a < b,
        units(a) == units(b) <==> a == b,
        units(0) == 0,
{
    if a < b {
        lemma_units_increase(a, b);
    } else if b < a {
        lemma_units_increase(b, a);
    }
}

/// Equal fractions round to the same double.
pub proof fn lemma_round_same(n1: nat, d1: nat, n2: nat, d2: nat)
    requires
        d1 > 0,
        d2 > 0,
        n1 * d2 == n2 * d1,
    ensures
        round_ratio(n1, d1) == round_ratio(n2, d2),
{
    lemma_round_monotone(n1, d1, n2, d2);
    lemma_round_monotone(n2, d2, n1, d1);
}

/// A fraction beyond every double rounds to infinity.
pub proof fn lemma_round_huge(n: nat, d: nat)
    requires
        d > 0,
        pow2(2100) * d <= n,
    ensures
        round_ratio(n, d) == INFINITE,
{
    lemma_pow2_pos(2100);
    lemma_div_is_ordered((pow2(2100) * d) as int, n as int, d as int);
    lemma_div_by_multiple(pow2(2100) as int, d as int);
    lemma_width(n / d);
    if width(n / d) < 2101 {
        lemma_pow2_order(width(n / d), 2100);
    }
    let k = scale(n, d);
    assert(k * (HIDDEN as nat) >= 2048 * (HIDDEN as nat)) by (nonlinear_arith)
        requires
            k >= 2048,
    ;
}

/// A fraction of less than half of the least double rounds to zero.
pub proof fn lemma_round_tiny(n: nat, d: nat)
    requires
        2 * n < d,
    ensures
        round_ratio(n, d) == 0,
{
    lemma_basic_div(n as int, d as int);
    lemma_small_mod(n, d);
    lemma2_to64();
    assert(d * pow2(0) == d);
}

/// The doubles nearest to two fractions are ordered as the fractions are.
pub proof fn lemma_ratio_order(n1: nat, d1: nat, n2: nat, d2: nat)
    requires
        d1 > 0,
        d2 > 0,
        n1 * d2 <= n2 * d1,
    ensures
        Double::ratio(n1, d1).at_most(Double::ratio(n2, d2)),
{
    let u = crate::double::one();
    assert((n1 * u) * d2 <= (n2 * u) * d1) by (nonlinear_arith)
        requires
            n1 * d2 <= n2 * d1,
    ;
    lemma_round_monotone(n1 * u, d1, n2 * u, d2);
    lemma_units_order(round_ratio(n1 * u, d1), round_ratio(n2 * u, d2));
}

// ---------------------------------------------------------------------------
// Order of results
// ---------------------------------------------------------------------------

/// A double from its parts has those parts.
pub proof fn lemma_signed(negative: bool, m: nat)
    requires
        m <= INFINITE,
    ensures
        ({
            let x = signed(negative, m);
            &&& x.negative() == negative
            &&& x.magnitude() == m
            &&& !x.nan()
            &&& x.value() == if negative {
                -(units(m) as int)
            } else {
                units(m) as int
            }
        }),
{
}

/// Numbers of the same value are the same double, unless they are zeros.
pub proof fn lemma_same_bits(a: Double, b: Double)
    requires
        a.same_number(b),
        a.value() != 0,
    ensures
        a == b,
{
    lemma_units_order(a.magnitude(), b.magnitude());
    lemma_units_order(a.magnitude(), 0);
    lemma_units_order(b.magnitude(), 0);
}

/// The order of values, by sign and magnitude.
pub proof fn lemma_value_sign(a: Double)
    ensures
        a.value() == 0 <==> a.zero(),
        a.negative() ==> a.value() <= 0,
        !a.negative() ==> a.value() >= 0,
{
    lemma_units_order(a.magnitude(), 0);
}

/// Factors can be swapped.
pub proof fn lemma_product_commutes(a: Double, b: Double)
    ensures
        a.product(b) == b.product(a),
{
    lemma_mul_is_commutative(units(a.magnitude()) as int, units(b.magnitude()) as int);
}

/// A larger factor never gives a smaller product, where nothing is negative.
pub proof fn lemma_product_order(a: Double, b: Double, c: Double)
    requires
        a.at_most(b),
        !a.negative(),
        !b.negative(),
        !c.negative(),
        c.finite(),
        !c.zero(),
    ensures
        a.product(c).at_most(b.product(c)),
        !a.product(c).negative(),
        !b.product(c).negative(),
{
    let u = units(a.magnitude());
    let v = units(b.magnitude());
    let w = units(c.magnitude());
    let one = crate::double::one();
    lemma_pow2_pos(1074);
    lemma_units_order(a.magnitude(), b.magnitude());
    lemma_mul_inequality(u as int, v as int, w as int);
    lemma_round_monotone_over(u * w, v * w, one);
    let p = round_ratio(u * w, one);
    let q = round_ratio(v * w, one);
    lemma_signed(false, p);
    lemma_signed(false, q);
    lemma_signed(false, INFINITE as nat);
    lemma_units_order(p, q);
    lemma_units_order(p, INFINITE as nat);
}

/// A larger addend never gives a smaller sum.
pub proof fn lemma_sum_order(e: Double, x: Double, y: Double)
    requires
        e.finite(),
        x.at_most(y),
    ensures
        e.sum(x).at_most(e.sum(y)),
{
    lemma_units_order(x.magnitude(), y.magnitude());
    lemma_value_sign(x);
    lemma_value_sign(y);
    lemma_units_order(x.magnitude(), INFINITE as nat);
    lemma_units_order(y.magnitude(), INFINITE as nat);
    lemma_units_order(0, INFINITE as nat);
    let s = e.value() + x.value();
    let t = e.value() + y.value();
    let p = round_ratio(if s < 0 {
        -s
    } else {
        s
    } as nat, 1);
    let q = round_ratio(if t < 0 {
        -t
    } else {
        t
    } as nat, 1);
    lemma_signed(false, p);
    lemma_signed(true, p);
    lemma_signed(false, q);
    lemma_signed(true, q);
    lemma_signed(false, 0);
    lemma_signed(true, 0);
    lemma_units_order(p, INFINITE as nat);
    lemma_units_order(q, INFINITE as nat);
    lemma_units_order(p, q);
    lemma_units_order(0, p);
    lemma_units_order(0, q);
    if s >= 0 && t >= 0 {
        lemma_round_monotone_over(s as nat, t as nat, 1);
    }
    if s <= 0 && t <= 0 {
        lemma_round_monotone_over((-t) as nat, (-s) as nat, 1);
    }
}

/// Opposites are ordered the other way round.
pub proof fn lemma_opposite_order(x: Double, y: Double)
    requires
        x.at_most(y),
    ensures
        y.opposite().at_most(x.opposite()),
        x.opposite().value() == -x.value(),
        x.opposite().negative() != x.negative(),
        x.opposite().magnitude() == x.magnitude(),
{
    lemma_signed(!x.negative(), x.magnitude());
    lemma_signed(!y.negative(), y.magnitude());
}

/// A zero adds nothing to a positive number.
pub proof fn lemma_sum_zero(e: Double, z: Double)
    requires
        e.finite(),
        !e.negative(),
        !e.zero(),
        z.zero(),
    ensures
        e.sum(z) == e,
{
    lemma_value_sign(e);
    lemma_value_sign(z);
    lemma_round_exact(e.magnitude());
    lemma_units_order(0, INFINITE as nat);
}

/// A sum with a number that is not negative is no negative zero.
pub proof fn lemma_sum_to_zero(e: Double, y: Double)
    requires
        e.finite(),
        !e.negative(),
        !y.nan(),
        e.sum(y).value() == 0,
    ensures
        e.sum(y) == (Double { bits: 0 }),
{
    let s = e.value() + y.value();
    let n = if s < 0 {
        -s
    } else {
        s
    } as nat;
    lemma_value_sign(e);
    lemma_value_sign(y);
    lemma_round_exact(1);
    if n > 0 {
        lemma_round_monotone_over(1, n, 1);
    }
    let m = round_ratio(n, 1);
    lemma_signed(false, m);
    lemma_signed(true, m);
    lemma_units_order(0, m);
    lemma_units_order(0, INFINITE as nat);
    lemma_units_order(0, y.magnitude());
}

/// One is written exactly.
pub proof fn lemma_one()
    ensures
        Double::whole(1).magnitude() == 0x3FF0_0000_0000_0000,
        !Double::whole(1).negative(),
        units(0x3FF0_0000_0000_0000) == crate::double::one(),
        Double::ratio(1, 1) == Double::whole(1),
{
    lemma2_to64();
    lemma2_to64_rest();
    lemma_pow2_adds(52, 1022);
    assert(units(0x3FF0_0000_0000_0000) == HIDDEN as nat * pow2(1022));
    lemma_round_exact(0x3FF0_0000_0000_0000);
    assert(1 * crate::double::one() == crate::double::one());
    lemma_signed(false, 0x3FF0_0000_0000_0000);
}

/// A number without the sign bit is no less than zero.
pub proof fn lemma_nonnegative(a: Double)
    ensures
        !a.negative() ==> a.value() >= 0,
        !a.negative() && !a.zero() ==> a.value() > 0,
        a.zero() ==> a.value() == 0,
{
    lemma_value_sign(a);
}

/// A number above zero has no sign bit.
pub proof fn lemma_positive(a: Double)
    ensures
        a.value() > 0 ==> !a.negative() && !a.zero(),
        (Double { bits: 0 }).value() == 0,
{
    lemma_value_sign(a);
    lemma_value_sign(Double { bits: 0 });
}

/// The double nearest to a fraction that is not tiny is positive.
pub proof fn lemma_positive_ratio(n: nat, d: nat)
    requires
        0 < n,
        0 < d <= 1_000_000_000,
    ensures
        Double::ratio(n, d).value() > 0,
        !Double::ratio(n, d).nan(),
{
    let one = crate::double::one();
    lemma2_to64();
    lemma_pow2_order(30, 1074);
    lemma_round_exact(1);
    lemma_mul_inequality(1, n as int, one as int);
    assert(1 * d <= (n * one) * 1);
    lemma_round_monotone(1, 1, n * one, d);
    let m = round_ratio(n * one, d);
    lemma_signed(false, m);
    lemma_units_order(0, m);
}

/// What lies between a positive number and a finite one is positive and finite.
pub proof fn lemma_between(a: Double, x: Double, b: Double)
    requires
        a.at_most(x),
        x.at_most(b),
        a.value() > 0,
        b.finite(),
    ensures
        !x.negative(),
        !x.zero(),
        x.finite(),
{
    lemma_value_sign(x);
    lemma_value_sign(b);
    lemma_units_order(x.magnitude(), b.magnitude());
}

/// A number and its opposite make zero.
pub proof fn lemma_sum_opposite(e: Double)
    requires
        e.finite(),
        !e.negative(),
    ensures
        e.sum(e.opposite()) == (Double { bits: 0 }),
{
    lemma_signed(!e.negative(), e.magnitude());
}

/// A sum with a number that is not negative has a sign bit only below zero.
pub proof fn lemma_sum_not_negative_zero(e: Double, y: Double)
    requires
        e.finite(),
        !e.negative(),
        !y.nan(),
        e.sum(y).value() >= 0,
        !e.sum(y).nan(),
    ensures
        !e.sum(y).negative(),
{
    if e.sum(y).value() == 0 {
        lemma_sum_to_zero(e, y);
    } else {
        lemma_value_sign(e.sum(y));
    }
}

/// One as a factor changes nothing.
pub proof fn lemma_product_one(e: Double)
    requires
        e.finite(),
    ensures
        e.product(Double::whole(1)) == e,
{
    lemma_one();
    let one = crate::double::one();
    lemma_pow2_pos(1074);
    let u = units(e.magnitude());
    lemma_round_exact(e.magnitude());
    assert((u * one) * 1 == u * one);
    lemma_round_same(u * one, one, u, 1);
    lemma_signed(e.negative(), e.magnitude());
}

// ---------------------------------------------------------------------------
// Executable operations
// ---------------------------------------------------------------------------

pub(crate) fn compose(negative: bool, magnitude: u64) -> (r: Double)
    requires
        magnitude < SIGN,
    ensures
        r == signed(negative, magnitude as nat),
        r.negative() == negative,
        r.magnitude() == magnitude,
{
    if negative {
        Double { bits: magnitude + SIGN }
    } else {
        Double { bits: magnitude }
    }
}

impl Double {
    pub(crate) fn is_negative(self) -> (r: bool)
        ensures
            r == self.negative(),
    {
        self.bits >= SIGN
    }

    pub(crate) fn magnitude_bits(self) -> (r: u64)
        ensures
            r == self.magnitude(),
            r < SIGN,
    {
        if self.bits >= SIGN {
            self.bits - SIGN
        } else {
            self.bits
        }
    }

    /// Whether the number is NaN.
    pub fn is_nan(self) -> (r: bool)
        ensures
            r == self.nan(),
    {
        self.magnitude_bits() > INFINITE
    }

    /// `self < other`.
    pub fn lt(self, other: Double) -> (r: bool)
        ensures
            r == self.below(other),
    {
        let a: u64 = self.magnitude_bits();
        let b: u64 = other.magnitude_bits();
        proof {
            lemma_units_order(a as nat, b as nat);
            lemma_units_order(a as nat, 0);
            lemma_units_order(b as nat, 0);
        }
        if a > INFINITE || b > INFINITE {
            false
        } else if self.is_negative() {
            if other.is_negative() {
                b < a
            } else {
                a != 0 || b != 0
            }
        } else {
            !other.is_negative() && a < b
        }
    }

    /// `self <= other`.
    pub fn le(self, other: Double) -> (r: bool)
        ensures
            r == self.at_most(other),
    {
        !self.is_nan() && !other.is_nan() && !other.lt(self)
    }

    /// `self == other` as numbers.
    pub fn equals(self, other: Double) -> (r: bool)
        ensures
            r == self.same_number(other),
    {
        self.le(other) && other.le(self)
    }

    /// The larger of the two.
    pub fn max(self, other: Double) -> (r: Double)
        ensures
            r == self.larger(other),
    {
        if self.is_nan() || self.lt(other) {
            other
        } else {
            self
        }
    }

    /// The smaller of the two.
    pub fn min(self, other: Double) -> (r: Double)
        ensures
            r == self.smaller(other),
    {
        if self.is_nan() || other.lt(self) {
            other
        } else {
            self
        }
    }

    /// `self` held between `lo` and `hi`.
    pub fn clamp(self, lo: Double, hi: Double) -> (r: Double)
        ensures
            r == self.clamped(lo, hi),
    {
        if self.lt(lo) {
            lo
        } else if hi.lt(self) {
            hi
        } else {
            self
        }
    }

    /// The number without its sign.
    pub fn abs(self) -> (r: Double)
        ensures
            r == self.absolute(),
    {
        compose(false, self.magnitude_bits())
    }

    /// `-self`.
    pub fn negate(self) -> (r: Double)
        ensures
            r == self.opposite(),
    {
        if self.is_nan() {
            Double { bits: QUIET }
        } else {
            compose(!self.is_negative(), self.magnitude_bits())
        }
    }

    /// `self + other`.
    pub fn plus(self, other: Double) -> (r: Double)
        ensures
            r == self.sum(other),
    {
        let a: u64 = self.magnitude_bits();
        let b: u64 = other.magnitude_bits();
        if a > INFINITE || b > INFINITE || (a == INFINITE && b == INFINITE && self.is_negative()
            != other.is_negative()) {
            return Double { bits: QUIET };
        }
        if a == INFINITE {
            return self;
        }
        if b == INFINITE {
            return other;
        }
        proof {
            lemma_units_order(a as nat, b as nat);
        }
        if a >= b {
            Self::add_finite(self, a, other, b)
        } else {
            Self::add_finite(other, b, self, a)
        }
    }

    /// The sum of two finite numbers, the first one not smaller in magnitude.
    fn add_finite(x: Double, a: u64, y: Double, b: u64) -> (r: Double)
        requires
            a == x.magnitude(),
            b == y.magnitude(),
            b <= a < INFINITE,
        ensures
            r == x.sum(y),
    {
        let neg: bool = x.is_negative();
        let same: bool = neg == y.is_negative();
        let (ma, ea): (u64, i32) = split(a);
        let (mb, eb): (u64, i32) = split(b);
        proof {
            lemma_units_order(a as nat, b as nat);
            lemma_units_order(b as nat, 0);
            lemma_units_order(a as nat, 0);
        }
        if !same && a == b {
            return Double { bits: 0 };
        }
        if a == 0 {
            return x;
        }
        proof {
            assert(ea >= eb) by {
                lemma_div_is_ordered(b as int, a as int, HIDDEN as int);
            }
        }
        let d: i32 = ea - eb;
        if d > 64 {
            proof {
                // the smaller one is far below a mantissa step of the larger
                let t = units(b as nat);
                lemma2_to64();
                lemma2_to64_rest();
                lemma_pow2_adds(53, eb as nat);
                lemma_pow2_pos(eb as nat);
                assert(t < pow2(53) * pow2(eb as nat)) by (nonlinear_arith)
                    requires
                        t == mb * pow2(eb as nat),
                        mb < pow2(53),
                        pow2(eb as nat) > 0,
                ;
                lemma_pow2_order((56 + eb) as nat, ea as nat);
                lemma_pow2_adds(3, (53 + eb) as nat);
                lemma_round_close(a as nat, t, same);
            }
            return x;
        }
        let c: u128 = two_to(d as u32);
        proof {
            lemma2_to64();
            lemma2_to64_rest();
            lemma_pow2_order(d as nat, 64);
            assert(ma * c < 0x20_0000_0000_0000_0000_0000_0000_0000) by (nonlinear_arith)
                requires
                    ma < 0x20_0000_0000_0000,
                    0 < c <= 0x1_0000_0000_0000_0000,
            ;
            lemma_pow2_adds(d as nat, eb as nat);
            lemma_pow2_pos(eb as nat);
            lemma_pow2_adds(64, 63);
            assert(units(a as nat) == (ma * c) * pow2(eb as nat)) by (nonlinear_arith)
                requires
                    units(a as nat) == ma * pow2(ea as nat),
                    pow2(ea as nat) == c * pow2(eb as nat),
            ;
            assert(ma * c >= mb) by (nonlinear_arith)
                requires
                    (ma * c) * pow2(eb as nat) >= mb * pow2(eb as nat),
                    pow2(eb as nat) > 0,
            ;
        }
        let big: u128 = ma as u128 * c;
        let p: u128 = if same {
            big + mb as u128
        } else {
            big - mb as u128
        };
        proof {
            let f = pow2(eb as nat);
            if same {
                assert(p * f == big * f + mb * f) by (nonlinear_arith)
                    requires
                        p == big + mb,
                ;
            } else {
                assert(p * f == big * f - mb * f) by (nonlinear_arith)
                    requires
                        p == big - mb,
                ;
            }
        }
        compose(neg, round_shifted(p, eb))
    }

    /// `self - other`.
    pub fn minus(self, other: Double) -> (r: Double)
        ensures
            r == self.difference(other),
    {
        self.plus(other.negate())
    }

    /// `self * other`.
    pub fn times(self, other: Double) -> (r: Double)
        ensures
            r == self.product(other),
    {
        let a: u64 = self.magnitude_bits();
        let b: u64 = other.magnitude_bits();
        let neg: bool = self.is_negative() != other.is_negative();
        if a > INFINITE || b > INFINITE || (a == INFINITE && b == 0) || (a == 0 && b == INFINITE) {
            return Double { bits: QUIET };
        }
        if a == INFINITE || b == INFINITE {
            return compose(neg, INFINITE);
        }
        let (ma, ea): (u64, i32) = split(a);
        let (mb, eb): (u64, i32) = split(b);
        proof {
            assert(ma * mb < 0x400_0000_0000_0000_0000_0000_0000) by (nonlinear_arith)
                requires
                    0 <= ma < 0x20_0000_0000_0000,
                    0 <= mb < 0x20_0000_0000_0000,
            ;
            lemma2_to64();
            lemma2_to64_rest();
            lemma_pow2_adds(64, 63);
            lemma_pow2_adds(ea as nat, eb as nat);
            assert(units(a as nat) * units(b as nat) == (ma * mb) * pow2((ea + eb) as nat))
                by (nonlinear_arith)
                requires
                    units(a as nat) == ma * pow2(ea as nat),
                    units(b as nat) == mb * pow2(eb as nat),
                    pow2((ea + eb) as nat) == pow2(ea as nat) * pow2(eb as nat),
            ;
            lemma_round_shifted((ma * mb) as nat, (ea + eb) as nat, 1074);
        }
        compose(neg, round_shifted(ma as u128 * mb as u128, ea + eb - 1074))
    }

    /// `self / other`.
    pub fn over(self, other: Double) -> (r: Double)
        ensures
            r == self.quotient(other),
    {
        let a: u64 = self.magnitude_bits();
        let b: u64 = other.magnitude_bits();
        let neg: bool = self.is_negative() != other.is_negative();
        if a > INFINITE || b > INFINITE || (a == INFINITE && b == INFINITE) || (a == 0 && b == 0) {
            return Double { bits: QUIET };
        }
        if a == INFINITE || b == 0 {
            return compose(neg, INFINITE);
        }
        if b == INFINITE {
            return compose(neg, 0);
        }
        let (ma, ea): (u64, i32) = split(a);
        let (mb, eb): (u64, i32) = split(b);
        proof {
            // ma 2^ea 2^1074 over mb 2^eb
            let up = (ea + 1074) as nat;
            lemma_pow2_adds(ea as nat, 1074);
            lemma_mul_is_associative(ma as int, pow2(ea as nat) as int, one() as int);
            lemma_quotient_form(ma as nat, mb as nat, up, eb as nat);
        }
        compose(neg, round_quotient(ma as u128, ea + 1074 - eb, mb))
    }

    /// The double nearest to `n`.
    pub fn from_u64(n: u64) -> (r: Double)
        ensures
            r == Double::whole(n as int),
    {
        proof {
            lemma2_to64();
            lemma2_to64_rest();
            lemma_pow2_adds(64, 63);
        }
        compose(false, round_shifted(n as u128, 1074))
    }

    /// The double nearest to `n`.
    pub fn from_i64(n: i64) -> (r: Double)
        ensures
            r == Double::whole(n as int),
    {
        proof {
            lemma2_to64();
            lemma2_to64_rest();
            lemma_pow2_adds(64, 63);
        }
        if n < 0 {
            compose(true, round_shifted((-(n as i128)) as u128, 1074))
        } else {
            compose(false, round_shifted(n as u128, 1074))
        }
    }

    /// The double nearest to `n`.
    pub fn from_u128(n: u128) -> (r: Double)
        requires
            n < 0x4000_0000_0000_0000_0000_0000_0000_0000,
        ensures
            r == Double::whole(n as int),
    {
        proof {
            lemma2_to64();
            lemma2_to64_rest();
            lemma_pow2_adds(64, 63);
            lemma_mul_basics((n as nat * one()) as int);
        }
        compose(false, round_shifted(n, 1074))
    }

    /// The double nearest to `n / d`.
    pub fn from_ratio(n: u64, d: u64) -> (r: Double)
        requires
            d > 0,
        ensures
            r == Double::ratio(n as nat, d as nat),
    {
        compose(false, round_quotient(n as u128, 1074, d))
    }

    /// The number rounded to a whole one, halves away from zero.
    pub fn round(self) -> (r: Double)
        ensures
            r == self.to_whole(),
    {
        let a: u64 = self.magnitude_bits();
        if a > INFINITE {
            return Double { bits: QUIET };
        }
        if a == INFINITE {
            return self;
        }
        let (m, e): (u64, i32) = split(a);
        proof {
            lemma2_to64();
            lemma2_to64_rest();
            lemma_pow2_adds(64, 63);
            lemma_pow2_pos(1074);
            lemma_pow2_unfold(1075);
        }
        if e >= 1074 {
            proof {
                // already whole
                let j = (e - 1074) as nat;
                let w = m * pow2(j);
                lemma_pow2_adds(j, 1074);
                lemma_mul_is_associative(m as int, pow2(j) as int, one() as int);
                lemma_half_up(w as nat, one());
                lemma_round_exact(a as nat);
            }
            return self;
        }
        let sh: i32 = 1074 - e;
        let ghost d = pow2(sh as nat);
        let ghost f = pow2(e as nat);
        let ghost w = (2 * units(a as nat) + one()) / (2 * one());
        proof {
            lemma_pow2_pos(e as nat);
            lemma_pow2_pos(sh as nat);
            lemma_pow2_adds(sh as nat, e as nat);
            assert(2 * units(a as nat) + one() == (2 * m + d) * f && 2 * one() == (2 * d) * f)
                by (nonlinear_arith)
                requires
                    units(a as nat) == m * f,
                    one() == d * f,
            ;
            lemma_nearest_cancel((2 * m + d) as nat, (2 * d) as nat, f);
            assert(w == (2 * m + d) / (2 * d) as int);
        }
        let whole: u64 = if sh > 60 {
            proof {
                lemma_pow2_order(60, sh as nat);
                lemma_basic_div((2 * m + d) as int, (2 * d) as int);
            }
            0
        } else {
            let t: u128 = two_to(sh as u32);
            proof {
                lemma_pow2_order(sh as nat, 60);
                lemma_div_nonincreasing((2 * m + d) as int, (2 * d) as int);
            }
            ((2 * m as u128 + t) / (2 * t)) as u64
        };
        compose(self.is_negative(), round_shifted(whole as u128, 1074))
    }

    /// The double nearest to the multiple of `1 / steps` that is nearest to the
    /// number.
    pub fn round_to_steps(self, steps: u64) -> (r: Double)
        requires
            0 < steps <= 1_000_000,
        ensures
            r == self.to_steps(steps as nat),
    {
        let a: u64 = self.magnitude_bits();
        if a > INFINITE {
            return Double { bits: QUIET };
        }
        if a == INFINITE {
            return self;
        }
        let (m, e): (u64, i32) = split(a);
        let ghost w = nearest_even(units(a as nat) * steps as nat, one());
        proof {
            lemma_pow2_pos(1074);
            lemma_div_basics(one() as int);
        }
        if e >= 1074 {
            proof {
                // already a multiple
                let j = (e - 1074) as nat;
                let g = (m * pow2(j)) as nat;
                lemma_pow2_adds(j, 1074);
                lemma_mul_is_associative(m as int, pow2(j) as int, one() as int);
                assert(units(a as nat) * steps as nat == (g * steps as nat) * one())
                    by (nonlinear_arith)
                    requires
                        units(a as nat) == g * one(),
                ;
                lemma_nearest_cancel(g * steps as nat, 1, one());
                lemma_div_basics((g * steps as nat) as int);
                assert((g * steps as nat) % 1 == 0);
                assert(w * one() == units(a as nat) * steps as nat);
                lemma_round_cancel(units(a as nat), 1, steps as nat);
                lemma_round_exact(a as nat);
            }
            return self;
        }
        let sh: i32 = 1074 - e;
        let ghost d = pow2(sh as nat);
        proof {
            lemma_pow2_pos(e as nat);
            lemma_pow2_pos(sh as nat);
            lemma_pow2_adds(sh as nat, e as nat);
            assert(units(a as nat) * steps as nat == (m * steps) as nat * pow2(e as nat))
                by (nonlinear_arith)
                requires
                    units(a as nat) == m * pow2(e as nat),
            ;
            lemma_nearest_cancel((m * steps) as nat, d, pow2(e as nat));
            assert(w == nearest_even((m * steps) as nat, d));
            lemma_mul_basics(steps as int);
            assert(m * steps < 0x200_0000_0000_0000_0000) by (nonlinear_arith)
                requires
                    m < 0x20_0000_0000_0000,
                    0 < steps <= 0x10_0000,
            ;
            lemma2_to64();
            lemma2_to64_rest();
        }
        let p: u128 = m as u128 * steps as u128;
        let n: u128 = if sh > 120 {
            proof {
                lemma_pow2_adds(64, 57);
                lemma_pow2_order(121, sh as nat);
                lemma_basic_div(p as int, d as int);
                lemma_small_mod(p as nat, d);
            }
            0
        } else {
            let t: u128 = two_to(sh as u32);
            let q: u128 = p / t;
            let r: u128 = p % t;
            proof {
                lemma_pow2_unfold(sh as nat);
                lemma_div_nonincreasing(p as int, t as int);
            }
            let half: u128 = t / 2;
            if r > half || (r == half && q % 2 == 1) {
                q + 1
            } else {
                q
            }
        };
        assert(n == w);
        compose(self.is_negative(), round_quotient(n, 1074, steps))
    }

    /// The number cut to a whole one, held in the range of `i64`.
    pub fn to_i64(self) -> (r: i64)
        ensures
            r == self.truncated(),
    {
        let a: u64 = self.magnitude_bits();
        if a > INFINITE {
            return 0;
        }
        let (m, e): (u64, i32) = split(a);
        proof {
            lemma2_to64();
            lemma2_to64_rest();
            lemma_pow2_pos(1074);
        }
        let w: u128 = if e >= 1074 {
            let j: i32 = e - 1074;
            proof {
                lemma_pow2_adds(j as nat, 1074);
                lemma_mul_is_associative(m as int, pow2(j as nat) as int, one() as int);
                lemma_div_by_multiple((m * pow2(j as nat)) as int, one() as int);
                assert(units(a as nat) / one() == m * pow2(j as nat));
            }
            if j > 11 {
                proof {
                    lemma_pow2_order(12, j as nat);
                    assert(m * pow2(j as nat) > 0x8000_0000_0000_0000) by (nonlinear_arith)
                        requires
                            m >= 0x10_0000_0000_0000,
                            pow2(j as nat) >= 4096,
                    ;
                }
                0xFFFF_FFFF_FFFF_FFFF
            } else {
                let c: u128 = two_to(j as u32);
                proof {
                    lemma_pow2_order(j as nat, 11);
                    assert(m * c < 0x1_0000_0000_0000_0000) by (nonlinear_arith)
                        requires
                            m < 0x20_0000_0000_0000,
                            c <= 2048,
                    ;
                }
                m as u128 * c
            }
        } else {
            let sh: i32 = 1074 - e;
            proof {
                lemma_pow2_pos(e as nat);
                lemma_pow2_pos(sh as nat);
                lemma_pow2_adds(sh as nat, e as nat);
                lemma_nearest_cancel(m as nat, pow2(sh as nat), pow2(e as nat));
                assert(units(a as nat) / one() == m as nat / pow2(sh as nat));
            }
            if sh > 60 {
                proof {
                    lemma_pow2_order(61, sh as nat);
                    lemma_basic_div(m as int, pow2(sh as nat) as int);
                }
                0
            } else {
                let t: u128 = two_to(sh as u32);
                m as u128 / t
            }
        };
        if self.is_negative() {
            if w > 0x8000_0000_0000_0000 {
                i64::MIN
            } else {
                (-(w as i128)) as i64
            }
        } else if w > i64::MAX as u128 {
            i64::MAX
        } else {
            w as i64
        }
    }
}

/// `a` whole parts and a half more cut to `a`.
proof fn lemma_half_up(a: nat, d: nat)
    requires
        d > 0,
    ensures
        (2 * (a * d) + d) / (2 * d) == a,
{
    assert(2 * (a * d) + d == a * (2 * d) + d) by (nonlinear_arith);
    lemma_fundamental_div_mod_converse((2 * (a * d) + d) as int, (2 * d) as int, a as int, d as int);
}

/// A quotient of two scaled numbers as one scaled quotient.
proof fn lemma_quotient_form(n: nat, d: nat, up: nat, down: nat)
    requires
        d > 0,
    ensures
        round_ratio(n * pow2(up), d * pow2(down)) == round_ratio(
            shifted_num(n, up - down),
            d * shifted_den(up - down),
        ),
{
    let s = up - down;
    lemma_pow2_pos(up);
    lemma_pow2_pos(down);
    if s >= 0 {
        lemma_pow2_adds(s as nat, down);
        lemma_mul_is_associative(n as int, pow2(s as nat) as int, pow2(down) as int);
        lemma_round_cancel(n * pow2(s as nat), d, pow2(down));
        lemma_mul_basics(d as int);
    } else {
        let j = (-s) as nat;
        lemma_pow2_pos(j);
        lemma_pow2_adds(j, up);
        lemma_mul_is_associative(d as int, pow2(j) as int, pow2(up) as int);
        assert(d * pow2(j) > 0) by (nonlinear_arith)
            requires
                d > 0,
                pow2(j) > 0,
        ;
        lemma_round_cancel(n, d * pow2(j), pow2(up));
    }
}

} // verus!
