//! Doubles from decimal text and as decimal text, rounded as the exact numbers
//! ask for.

use crate::digits;
use crate::digits::{halve, less, scale_up, take_away};
use crate::double;
use crate::double::{compose, round_shifted, split, Double, INFINITE, QUIET};
use crate::text;
use crate::words;
use crate::words::to_small;
use vstd::arithmetic::div_mod::*;
use vstd::arithmetic::mul::*;
use vstd::arithmetic::power::*;
use vstd::arithmetic::power2::*;
use vstd::prelude::*;
use vstd::string::*;

verus! {

/// Ten to the 401 is below two to the 1604.
proof fn lemma_range()
    ensures
        digits::ten(401) <= pow2(1604),
        digits::ten(400) >= pow2(1200),
{
    lemma_sixteen(401);
    lemma_eight(400);
}

proof fn lemma_sixteen(n: nat)
    ensures
        digits::ten(n) <= pow2(4 * n),
    decreases n,
{
    lemma2_to64();
    digits::lemma_ten(0);
    if n > 0 {
        lemma_sixteen((n - 1) as nat);
        digits::lemma_ten((n - 1) as nat);
        lemma_pow2_adds((4 * (n - 1)) as nat, 4);
    }
}

proof fn lemma_eight(n: nat)
    ensures
        digits::ten(n) >= pow2(3 * n),
    decreases n,
{
    lemma2_to64();
    digits::lemma_ten(0);
    if n > 0 {
        lemma_eight((n - 1) as nat);
        digits::lemma_ten((n - 1) as nat);
        lemma_pow2_adds((3 * (n - 1)) as nat, 3);
    }
}

/// Fewer than 1604 doublings take one of two numbers past the other where they
/// are less than `10^401` apart.
proof fn lemma_few_doublings(x: nat, y: nat, a: nat)
    requires
        x > 0,
        x * pow2(a) < y,
        y <= x * digits::ten(401),
    ensures
        a < 1604,
{
    lemma_range();
    if a >= 1604 {
        double::lemma_pow2_order(1604, a);
        assert(x * digits::ten(401) <= x * pow2(a)) by (nonlinear_arith)
            requires
                digits::ten(401) <= pow2(a),
        ;
    }
}

/// Magnitude bits of the double nearest to `n / d`.
fn nearest(n: &mut Vec<u8>, d: &mut Vec<u8>) -> (m: u64)
    requires
        digits::digits(old(n)@),
        digits::digits(old(d)@),
        digits::val(old(n)@) > 0,
        digits::val(old(d)@) > 0,
        digits::val(old(n)@) <= digits::val(old(d)@) * digits::ten(401),
        digits::val(old(d)@) <= digits::val(old(n)@) * digits::ten(401),
    ensures
        m == double::round_ratio(
            digits::val(old(n)@) * double::one(),
            digits::val(old(d)@),
        ),
        m <= INFINITE,
{
    let ghost n0 = digits::val(n@);
    let ghost d0 = digits::val(d@);
    let mut b: i32 = 0;
    proof {
        lemma2_to64();
        assert(d0 * pow2(0) == d0);
        assert(n0 * pow2(0) == n0);
        digits::lemma_ten(400);
        digits::lemma_ten_order(0, 400);
    }
    while !less(n, d)
        invariant
            digits::digits(n@),
            digits::digits(d@),
            digits::val(n@) == n0,
            digits::val(d@) == d0 * pow2(b as nat),
            d0 > 0,
            n0 > 0,
            n0 <= d0 * digits::ten(401),
            0 <= b <= 1605,
            b > 0 ==> digits::val(d@) <= 2 * n0,
        decreases
                if digits::val(d@) <= n0 {
                    n0 - digits::val(d@) + 1
                } else {
                    0
                },
    {
        proof {
            if b >= 1 {
                // before the last doubling the number was still smaller
                lemma_pow2_unfold(b as nat);
                assert(d0 * pow2(b as nat) == 2 * (d0 * pow2((b - 1) as nat))) by (nonlinear_arith)
                    requires
                        pow2(b as nat) == 2 * pow2((b - 1) as nat),
                ;
                lemma_pow2_pos((b - 1) as nat);
                assert(d0 * pow2((b - 1) as nat) > 0) by (nonlinear_arith)
                    requires
                        d0 > 0,
                        pow2((b - 1) as nat) > 0,
                ;
                lemma_few_doublings(d0, n0, (b - 1) as nat);
            }
            lemma_pow2_unfold((b + 1) as nat);
            assert(d0 * pow2(b as nat) * 2 == d0 * pow2((b + 1) as nat)) by (nonlinear_arith)
                requires
                    pow2((b + 1) as nat) == 2 * pow2(b as nat),
            ;
            lemma_pow2_pos(b as nat);
            assert(d0 * pow2(b as nat) > 0) by (nonlinear_arith)
                requires
                    d0 > 0,
                    pow2(b as nat) > 0,
            ;
        }
        scale_up(d, 2, 0);
        b = b + 1;
    }
    let ghost dv = digits::val(d@);
    let mut a: i32 = 0;
    proof {
        lemma_pow2_pos(b as nat);
        assert(d0 <= dv) by (nonlinear_arith)
            requires
                dv == d0 * pow2(b as nat),
                pow2(b as nat) >= 1,
        ;
        // the loop has left dv at most twice the larger number
        assert(2 * n0 <= n0 * digits::ten(401)) by (nonlinear_arith)
            requires
                digits::ten(401) >= 2,
        ;
    }
    while less(n, d)
        invariant
            digits::digits(n@),
            digits::digits(d@),
            digits::val(d@) == dv,
            digits::val(n@) == n0 * pow2(a as nat),
            digits::val(n@) < 2 * dv,
            n0 > 0,
            dv > 0,
            dv <= n0 * digits::ten(401),
            0 <= a <= 1605,
        decreases
                if digits::val(n@) < dv {
                    dv - digits::val(n@)
                } else {
                    0
                },
    {
        proof {
            lemma_few_doublings(n0, dv, a as nat);
            lemma_pow2_unfold((a + 1) as nat);
            assert(n0 * pow2(a as nat) * 2 == n0 * pow2((a + 1) as nat)) by (nonlinear_arith)
                requires
                    pow2((a + 1) as nat) == 2 * pow2(a as nat),
            ;
            lemma_pow2_pos(a as nat);
            assert(n0 * pow2(a as nat) > 0) by (nonlinear_arith)
                requires
                    n0 > 0,
                    pow2(a as nat) > 0,
            ;
        }
        scale_up(n, 2, 0);
        a = a + 1;
    }
    let ghost nv = digits::val(n@);
    take_away(n, d);
    let mut q: u64 = 1;
    let mut i: u32 = 0;
    proof {
        assert(nv == nv * pow2(0) && 1 * dv == dv);
    }
    while i < 63
        invariant
            i <= 63,
            digits::digits(n@),
            digits::digits(d@),
            digits::val(d@) == dv,
            digits::val(n@) < dv,
            nv * pow2(i as nat) == q * dv + digits::val(n@),
            pow2(i as nat) <= q < 2 * pow2(i as nat),
        decreases 63 - i,
    {
        let ghost r = digits::val(n@);
        let ghost q0 = q;
        proof {
            lemma_pow2_unfold((i + 1) as nat);
            double::lemma_pow2_order((i + 1) as nat, 63);
            lemma2_to64_rest();
            assert(nv * pow2((i + 1) as nat) == (2 * q) * dv + 2 * r) by (nonlinear_arith)
                requires
                    nv * pow2(i as nat) == q * dv + r,
                    pow2((i + 1) as nat) == 2 * pow2(i as nat),
            ;
        }
        scale_up(n, 2, 0);
        q = 2 * q;
        if !less(n, d) {
            take_away(n, d);
            assert((2 * q0 + 1) * dv == (2 * q0) * dv + dv) by (nonlinear_arith);
            q = q + 1;
        }
        i = i + 1;
    }
    let zero: Vec<u8> = Vec::new();
    let left: bool = less(&zero, n);
    let p: u128 = 2 * q as u128 + if left {
        1
    } else {
        0
    };
    // n0 / d0 is nv * 2^63 / dv, times 2^(b - a - 63)
    let u: i32 = 1074 + b - a - 63;
    proof {
        let rest = digits::val(n@);
        let big = nv * pow2(63);
        lemma2_to64();
        lemma2_to64_rest();
        lemma_pow2_adds(64, 63);
        double::lemma_width(q as nat);
        if double::width(q as nat) < 55 {
            double::lemma_pow2_order(double::width(q as nat), 63);
        }
        double::lemma_round_sticky(big, dv, q as nat, rest, u as int);
        lemma_pow2_pos(b as nat);
        lemma_pow2_pos(a as nat);
        lemma_scaled(n0, d0, a as nat, b as nat);
    }
    round_shifted(p, u - 1)
}

proof fn lemma_regroup(n: int, d: int, z: int, o: int, w: int)
    ensures
        (n * (z * o * w)) * d == (n * o) * (d * z * w),
{
    assert((n * (z * o * w)) * d == (n * o) * (d * z * w)) by (nonlinear_arith);
}

/// The powers of two by which a quotient was widened cancel out.
proof fn lemma_scaled(n: nat, d: nat, a: nat, b: nat)
    requires
        d > 0,
    ensures
        ({
            let u = 1074 + b - a - 63;
            double::round_ratio(
                double::shifted_num(n * pow2(a) * pow2(63), u),
                d * pow2(b) * double::shifted_den(u),
            ) == double::round_ratio(n * double::one(), d)
        }),
{
    let u = 1074 + b - a - 63;
    let num = double::shifted_num(n * pow2(a) * pow2(63), u);
    let den = d * pow2(b) * double::shifted_den(u);
    lemma_pow2_pos(b);
    lemma_pow2_pos(a);
    lemma2_to64();
    let x = pow2(a);
    let y = pow2(63);
    let z = pow2(b);
    let one = double::one();
    lemma_pow2_adds(a, 63);
    lemma_pow2_adds(b, 1074);
    if u >= 0 {
        let w = pow2(u as nat);
        lemma_pow2_adds(a + 63, u as nat);
        assert(x * y * w == z * double::one());
        lemma_mul_is_associative((n * x) as int, y as int, w as int);
        lemma_mul_is_associative(n as int, x as int, (y * w) as int);
        lemma_mul_is_associative(x as int, y as int, w as int);
        assert(num == n * (z * one));
        lemma_regroup(n as int, d as int, z as int, one as int, 1);
        assert(num * d == n * one * den);
        assert(den > 0) by (nonlinear_arith)
            requires
                den == d * z * 1,
                d > 0,
                z > 0,
        ;
    } else {
        let w = pow2((-u) as nat);
        lemma_pow2_pos((-u) as nat);
        lemma_pow2_adds(b + 1074, (-u) as nat);
        assert(x * y == z * double::one() * w);
        lemma_mul_is_associative(n as int, x as int, y as int);
        assert(num == n * (z * one * w));
        lemma_regroup(n as int, d as int, z as int, one as int, w as int);
        assert(num * d == n * one * den);
        assert(den > 0) by (nonlinear_arith)
            requires
                den == d * z * w,
                d > 0,
                z > 0,
                w > 0,
        ;
    }
    double::lemma_round_same(num, den, n * double::one(), d);
}

// ---------------------------------------------------------------------------
// Reading
// ---------------------------------------------------------------------------

/// Magnitude bits of the double nearest to `d * 10^e`.
pub open spec fn magnitude_of(d: nat, e: int) -> nat {
    if e >= 0 {
        double::round_ratio(d * digits::ten(e as nat) * double::one(), 1)
    } else {
        double::round_ratio(d * double::one(), digits::ten((-e) as nat))
    }
}

/// A number of 400 whole digits and more is beyond every double.
proof fn lemma_huge(d: nat, size: nat, e: int)
    requires
        size > 0,
        d >= digits::ten((size - 1) as nat),
        size + e > 400,
    ensures
        magnitude_of(d, e) == INFINITE,
{
    let u = double::one();
    lemma_range();
    lemma_pow2_adds(1200, 1074);
    double::lemma_pow2_order(2100, 2274);
    lemma_pow2_pos(1074);
    digits::lemma_ten((size - 1) as nat);
    if e >= 0 {
        let t = digits::ten(e as nat);
        digits::lemma_ten(e as nat);
        lemma_pow_adds(10, (size - 1) as nat, e as nat);
        digits::lemma_ten((size - 1 + e) as nat);
        digits::lemma_ten_order(400, (size - 1 + e) as nat);
        assert(d * t >= digits::ten((size - 1) as nat) * t) by (nonlinear_arith)
            requires
                d >= digits::ten((size - 1) as nat),
        ;
        assert(d * t * u >= pow2(1200) * u) by (nonlinear_arith)
            requires
                d * t >= pow2(1200),
        ;
        double::lemma_round_huge(d * t * u, 1);
    } else {
        let f = (-e) as nat;
        let t = digits::ten(f);
        digits::lemma_ten(f);
        let g = (size - 1 - f) as nat;
        lemma_pow_adds(10, g, f);
        digits::lemma_ten(g);
        digits::lemma_ten_order(400, g);
        assert(d * u >= pow2(2100) * t) by (nonlinear_arith)
            requires
                d >= digits::ten(g) * t,
                digits::ten(g) >= pow2(1200),
                pow2(1200) * u >= pow2(2100),
                t > 0,
                u > 0,
        ;
        double::lemma_round_huge(d * u, t);
    }
}

/// A number with 400 zeros behind the point is below every double.
proof fn lemma_tiny(d: nat, size: nat, e: int)
    requires
        d < digits::ten(size),
        size + e < -400,
    ensures
        magnitude_of(d, e) == 0,
{
    let u = double::one();
    let f = (-e) as nat;
    let g = (f - size) as nat;
    let t = digits::ten(f);
    lemma_range();
    double::lemma_pow2_order(1075, 1200);
    lemma_pow2_unfold(1075);
    lemma_pow_adds(10, size, g);
    digits::lemma_ten(size);
    digits::lemma_ten(g);
    digits::lemma_ten(f);
    digits::lemma_ten_order(400, g);
    lemma_pow2_pos(1074);
    assert(2 * (d * u) < t) by (nonlinear_arith)
        requires
            d < digits::ten(size),
            t == digits::ten(size) * digits::ten(g),
            digits::ten(g) >= 2 * u,
            u > 0,
    ;
    double::lemma_round_tiny(d * u, t);
}

/// `10^k` as digits.
fn power_of_ten(k: u128) -> (r: Vec<u8>)
    ensures
        digits::digits(r@),
        digits::val(r@) == digits::ten(k as nat),
{
    let mut out: Vec<u8> = Vec::new();
    out.push(1);
    assert(out@.drop_first() =~= seq![]);
    assert(digits::val(out@.drop_first()) == 0);
    assert(digits::val(out@) == 1);
    assert(1 * digits::ten(k as nat) == digits::ten(k as nat));
    raised(&out, k)
}

/// `d * 10^k` as digits.
fn raised(d: &Vec<u8>, k: u128) -> (r: Vec<u8>)
    requires
        digits::digits(d@),
    ensures
        digits::digits(r@),
        digits::val(r@) == digits::val(d@) * digits::ten(k as nat),
{
    let mut out: Vec<u8> = Vec::new();
    let mut i: u128 = 0;
    while i < k
        invariant
            i <= k,
            out@.len() == i,
            forall|j: int| 0 <= j < i ==> out@[j] == 0,
        decreases k - i,
    {
        out.push(0);
        i = i + 1;
    }
    let mut j: usize = 0;
    let ghost zeros = out@;
    assert(zeros + d@.take(0) =~= zeros);
    while j < d.len()
        invariant
            j <= d@.len(),
            digits::digits(d@),
            digits::digits(out@),
            out@ == zeros + d@.take(j as int),
        decreases d@.len() - j,
    {
        out.push(d[j]);
        assert(out@ =~= zeros + d@.take(j + 1));
        j = j + 1;
    }
    proof {
        assert(out@.take(k as int) =~= zeros);
        assert(out@.skip(k as int) =~= d@);
        digits::lemma_val_split(out@, k as int);
        lemma_val_zeros(zeros);
        lemma_mul_is_commutative(digits::ten(k as nat) as int, digits::val(d@) as int);
    }
    out
}

proof fn lemma_val_zeros(z: Seq<u8>)
    requires
        forall|j: int| 0 <= j < z.len() ==> z[j] == 0,
    ensures
        digits::val(z) == 0,
    decreases z.len(),
{
    if z.len() > 0 {
        lemma_val_zeros(z.drop_first());
    }
}

/// Exponents are read exactly up to this size.
const FAR: i128 = 1_000_000_000_000_000_000_000_000;

/// Whether `e` stands for the exponent `exact`: it is the same, or both are far
/// out on the same side.
spec fn stands_for(e: i128, exact: int) -> bool {
    ||| e == exact
    ||| e >= FAR && exact >= FAR
    ||| e <= -FAR && exact <= -FAR
}

/// Takes the zeros away from the high end.
fn trim(d: &mut Vec<u8>)
    requires
        digits::digits(old(d)@),
    ensures
        digits::digits(final(d)@),
        digits::val(final(d)@) == digits::val(old(d)@),
        final(d)@.len() > 0 ==> final(d)@.last() > 0,
        final(d)@.len() == 0 ==> digits::val(old(d)@) == 0,
        final(d)@ == old(d)@.take(final(d)@.len() as int),
        final(d)@.len() <= old(d)@.len(),
{
    let ghost start = d@;
    assert(start.take(start.len() as int) =~= start);
    while d.len() > 0 && d[d.len() - 1] == 0
        invariant
            digits::digits(d@),
            digits::val(d@) == digits::val(start),
            d@.len() <= start.len(),
            d@ == start.take(d@.len() as int),
        decreases d@.len(),
    {
        let ghost before = d@;
        d.pop();
        proof {
            let n = d@.len() as int;
            assert(d@ =~= before.take(n));
            assert(before.skip(n) =~= seq![0u8]);
            assert(seq![0u8].drop_first() =~= seq![]);
            assert(digits::val(seq![0u8]) == 0) by {
                assert(digits::val(seq![0u8].drop_first()) == 0);
            }
            digits::lemma_val_split(before, n);
            assert(digits::ten(n as nat) * 0 == 0);
            assert(d@ =~= start.take(n));
        }
    }
}

/// A number whose leading digit is not zero is as large as its size tells.
proof fn lemma_leading(d: Seq<u8>)
    requires
        d.len() > 0,
        d.last() > 0,
    ensures
        digits::val(d) >= digits::ten((d.len() - 1) as nat),
{
    let n = d.len() - 1;
    digits::lemma_val_split(d, n);
    assert(d.skip(n) =~= seq![d.last()]);
    assert(seq![d.last()].drop_first() =~= seq![]);
    assert(digits::val(seq![d.last()]) == d.last()) by {
        assert(digits::val(seq![d.last()].drop_first()) == 0);
    }
    digits::lemma_ten(n as nat);
    assert(digits::ten(n as nat) * d.last() >= digits::ten(n as nat)) by (nonlinear_arith)
        requires
            d.last() >= 1,
            digits::ten(n as nat) > 0,
    ;
}

/// Magnitude bits of the double nearest to `d * 10^e`.
fn read_scaled(d: &mut Vec<u8>, e: i128, Ghost(exact): Ghost<int>) -> (m: u64)
    requires
        digits::digits(old(d)@),
        stands_for(e, exact),
        -2 * FAR <= e <= 2 * FAR,
    ensures
        m == magnitude_of(digits::val(old(d)@), exact),
        m <= INFINITE,
{
    let ghost v = digits::val(d@);
    trim(d);
    let size: i128 = d.len() as i128;
    proof {
        digits::lemma_val_bound(d@);
        digits::lemma_ten(0);
    }
    if size == 0 {
        proof {
            let t = digits::ten(if exact >= 0 {
                0
            } else {
                (-exact) as nat
            });
            digits::lemma_ten(if exact >= 0 {
                0
            } else {
                (-exact) as nat
            });
            assert(0 * double::one() == 0);
            if exact >= 0 {
                assert(0 * digits::ten(exact as nat) == 0);
            }
            double::lemma_round_tiny(0, t);
        }
        return 0;
    }
    proof {
        lemma_leading(d@);
    }
    if size + e > 400 {
        proof {
            lemma_huge(v, size as nat, exact);
        }
        return INFINITE;
    }
    if size + e < -400 {
        proof {
            lemma_tiny(v, size as nat, exact);
        }
        return 0;
    }
    assert(e == exact);
    if size <= 19 && -19 <= e && e <= 0 {
        return read_short(d, (-e) as u32);
    }
    proof {
        lemma_between(v, size as nat, exact);
    }
    if e >= 0 {
        let mut n: Vec<u8> = raised(d, e as u128);
        let mut one: Vec<u8> = power_of_ten(0);
        nearest(&mut n, &mut one)
    } else {
        let mut t: Vec<u8> = power_of_ten((-e) as u128);
        proof {
            digits::lemma_ten((-e) as nat);
        }
        nearest(d, &mut t)
    }
}

/// `10^k`.
fn short_power(k: u32) -> (r: u64)
    requires
        k <= 19,
    ensures
        r == digits::ten(k as nat),
        r > 0,
{
    let mut p: u64 = 1;
    let mut i: u32 = 0;
    proof {
        digits::lemma_ten(0);
    }
    while i < k
        invariant
            i <= k <= 19,
            p == digits::ten(i as nat),
            p > 0,
        decreases k - i,
    {
        proof {
            digits::lemma_ten(i as nat);
            digits::lemma_ten_order((i + 1) as nat, 19);
            lemma_ten_19();
        }
        p = p * 10;
        i = i + 1;
    }
    p
}

proof fn lemma_ten_19()
    ensures
        digits::ten(19) == 10_000_000_000_000_000_000,
{
    reveal_with_fuel(pow, 20);
}

/// Magnitude bits of the double nearest to `d / 10^k`, for few digits.
fn read_short(d: &Vec<u8>, k: u32) -> (m: u64)
    requires
        digits::digits(d@),
        d@.len() <= 19,
        k <= 19,
    ensures
        m == magnitude_of(digits::val(d@), -(k as int)),
        m <= INFINITE,
{
    let mut n: u64 = 0;
    let mut i: usize = d.len();
    assert(d@.skip(i as int) =~= seq![]);
    while i > 0
        invariant
            i <= d@.len() <= 19,
            digits::digits(d@),
            n == digits::val(d@.skip(i as int)),
        decreases i,
    {
        i = i - 1;
        proof {
            assert(d@.skip(i as int).drop_first() =~= d@.skip(i + 1));
            lemma_few_digits(d@.skip(i as int));
        }
        n = d[i] as u64 + 10 * n;
    }
    assert(d@.skip(0) =~= d@);
    let p: u64 = short_power(k);
    proof {
        digits::lemma_ten(0);
        if k == 0 {
            assert(n as nat * digits::ten(0) == n) by (nonlinear_arith)
                requires
                    digits::ten(0) == 1,
            ;
        }
    }
    Double::from_ratio(n, p).magnitude_bits()
}

proof fn lemma_few_digits(d: Seq<u8>)
    requires
        d.len() <= 19,
        forall|i: int| 0 <= i < d.len() ==> #[trigger] d[i] <= 9,
    ensures
        digits::val(d) < 10_000_000_000_000_000_000,
{
    digits::lemma_val_bound(d);
    digits::lemma_ten_order(d.len(), 19);
    lemma_ten_19();
}

/// In between, numerator and denominator are less than `10^401` apart.
proof fn lemma_between(d: nat, size: nat, e: int)
    requires
        size > 0,
        digits::ten((size - 1) as nat) <= d < digits::ten(size),
        -400 <= size + e <= 400,
    ensures
        d > 0,
        e >= 0 ==> d * digits::ten(e as nat) <= digits::ten(401),
        e >= 0 ==> 0 < d * digits::ten(e as nat),
        e >= 0 ==> 1 <= d * digits::ten(e as nat) * digits::ten(401),
        e < 0 ==> d <= digits::ten((-e) as nat) * digits::ten(401),
        e < 0 ==> digits::ten((-e) as nat) <= d * digits::ten(401),
{
    digits::lemma_ten((size - 1) as nat);
    digits::lemma_ten(401);
    if e >= 0 {
        let t = digits::ten(e as nat);
        digits::lemma_ten(e as nat);
        lemma_pow_adds(10, size, e as nat);
        digits::lemma_ten(size);
        digits::lemma_ten((size + e) as nat);
        digits::lemma_ten_order((size + e) as nat, 401);
        assert(d * t <= digits::ten(size) * t) by (nonlinear_arith)
            requires
                d <= digits::ten(size),
        ;
        assert(d * t > 0) by (nonlinear_arith)
            requires
                d > 0,
                t > 0,
        ;
        assert(d * t * digits::ten(401) >= 1) by (nonlinear_arith)
            requires
                d * t > 0,
                digits::ten(401) > 0,
        ;
    } else {
        let f = (-e) as nat;
        let t = digits::ten(f);
        digits::lemma_ten(f);
        digits::lemma_ten(size);
        lemma_pow_adds(10, f, 401);
        digits::lemma_ten(f + 401);
        digits::lemma_ten_order(size, f + 401);
        lemma_pow_adds(10, (size - 1) as nat, 401);
        digits::lemma_ten((size - 1 + 401) as nat);
        digits::lemma_ten_order(f, (size - 1 + 401) as nat);
        assert(digits::ten((size - 1) as nat) * digits::ten(401) <= d * digits::ten(401))
            by (nonlinear_arith)
            requires
                digits::ten((size - 1) as nat) <= d,
        ;
    }
}

/// Whether `c` is a decimal digit.
pub open spec fn is_digit(c: char) -> bool {
    '0' <= c <= '9'
}

/// How many digits stand in a row from the position `i` on.
pub open spec fn run(s: Seq<char>, i: int) -> nat
    decreases s.len() - i,
{
    if 0 <= i < s.len() && is_digit(s[i]) {
        1 + run(s, i + 1)
    } else {
        0
    }
}

/// Whether a text starts with a minus sign, and what follows its sign.
pub open spec fn sign_cut(s: Seq<char>) -> (bool, Seq<char>) {
    if s.len() > 0 && s[0] == '-' {
        (true, s.skip(1))
    } else if s.len() > 0 && s[0] == '+' {
        (false, s.skip(1))
    } else {
        (false, s)
    }
}

/// The exponent that a text writes: none, or `e` and a whole number.
pub open spec fn exponent_of(s: Seq<char>) -> Option<int> {
    if s.len() == 0 {
        Some(0)
    } else if s[0] == 'e' || s[0] == 'E' {
        let (negative, u) = sign_cut(s.skip(1));
        if u.len() > 0 && text::all_digits(u) {
            Some(
                if negative {
                    -(text::number_of(u) as int)
                } else {
                    text::number_of(u) as int
                },
            )
        } else {
            None
        }
    } else {
        None
    }
}

/// The number that a text without a sign writes, as digits and the power of
/// ten that they count: digits, at most one point among or around them, and an
/// exponent.
pub open spec fn plain_number(s: Seq<char>) -> Option<(nat, int)> {
    let a = run(s, 0) as int;
    let point = a < s.len() && s[a] == '.';
    let b = if point {
        run(s, a + 1) as int
    } else {
        0
    };
    let fraction = if point {
        s.subrange(a + 1, a + 1 + b)
    } else {
        seq![]
    };
    let rest = s.skip(
        if point {
            a + 1 + b
        } else {
            a
        },
    );
    match exponent_of(rest) {
        Some(e) => if a + b > 0 {
            Some((text::number_of(s.take(a) + fraction), e - b))
        } else {
            None
        },
        None => None,
    }
}

/// Whether a text is the word `w`, whatever the case of its letters.
pub open spec fn spells(s: Seq<char>, w: Seq<char>) -> bool {
    s.len() == w.len() && forall|i: int| 0 <= i < s.len() ==> words::small(#[trigger] s[i])
        == w[i]
}

/// The double that a text writes, if it writes one.
pub open spec fn parsed(s: Seq<char>) -> Option<Double> {
    let (negative, t) = sign_cut(s);
    if spells(t, "inf"@) || spells(t, "infinity"@) {
        Some(double::signed(negative, INFINITE as nat))
    } else if spells(t, "nan"@) {
        Some(Double::not_a_number())
    } else {
        match plain_number(t) {
            Some((d, e)) => Some(double::signed(negative, magnitude_of(d, e))),
            None => None,
        }
    }
}

/// Whether the characters from `from` on are the word `w`.
fn is_word(cs: &Vec<char>, from: usize, w: &str) -> (r: bool)
    requires
        from <= cs@.len(),
    ensures
        r == spells(cs@.skip(from as int), w@),
{
    let ws: Vec<char> = text::chars_of(w);
    let ghost s = cs@.skip(from as int);
    let n: usize = cs.len();
    if n - from != ws.len() {
        return false;
    }
    let mut i: usize = 0;
    while i < ws.len()
        invariant
            i <= ws@.len(),
            ws@ == w@,
            n == cs@.len(),
            from <= cs@.len(),
            s == cs@.skip(from as int),
            s.len() == ws@.len(),
            forall|j: int| 0 <= j < i ==> words::small(#[trigger] s[j]) == w@[j],
        decreases ws@.len() - i,
    {
        assert(s[i as int] == cs@[from + i]);
        if to_small(cs[from + i]) != ws[i] {
            return false;
        }
        i = i + 1;
    }
    true
}

proof fn lemma_run(s: Seq<char>, i: int)
    requires
        0 <= i <= s.len(),
    ensures
        i + run(s, i) <= s.len(),
        text::all_digits(s.subrange(i, i + run(s, i))),
        forall|j: int| i <= j < i + run(s, i) ==> is_digit(#[trigger] s[j]),
    decreases s.len() - i,
{
    if i < s.len() && is_digit(s[i]) {
        lemma_run(s, i + 1);
    }
}

/// How many digits stand in a row from the position `i` on.
fn run_from(cs: &Vec<char>, i: usize) -> (r: usize)
    requires
        i <= cs@.len(),
    ensures
        r == run(cs@, i as int),
        i + r <= cs@.len(),
{
    let mut k: usize = i;
    while k < cs.len() && '0' <= cs[k] && cs[k] <= '9'
        invariant
            i <= k <= cs@.len(),
            run(cs@, i as int) == (k - i) + run(cs@, k as int),
        decreases cs@.len() - k,
    {
        k = k + 1;
    }
    k - i
}

/// Puts the digits between two positions above those of `d`.
fn gather(d: &mut Vec<u8>, cs: &Vec<char>, from: usize, to: usize)
    requires
        from <= to <= cs@.len(),
        digits::digits(old(d)@),
        text::all_digits(cs@.subrange(from as int, to as int)),
    ensures
        digits::digits(final(d)@),
        final(d)@.len() == old(d)@.len() + (to - from),
        digits::val(final(d)@) == digits::val(old(d)@) + digits::ten(old(d)@.len())
            * text::number_of(cs@.subrange(from as int, to as int)),
{
    let ghost low = d@;
    let ghost s = cs@.subrange(from as int, to as int);
    let mut i: usize = to;
    assert(low + Seq::<u8>::empty() =~= low);
    let ghost mut high: Seq<u8> = seq![];
    proof {
        assert(s.skip(to - from) =~= seq![]);
    }
    while i > from
        invariant
            from <= i <= to <= cs@.len(),
            s == cs@.subrange(from as int, to as int),
            text::all_digits(s),
            digits::digits(d@),
            d@ == low + high,
            high == mirrored(s.skip(i - from)),
        decreases i - from,
    {
        let ghost before = high;
        i = i - 1;
        assert(cs@[i as int] == s[i - from]);
        let c: char = cs[i];
        let x: u8 = c as u8 - 48;
        d.push(x);
        proof {
            high = before.push(x);
            assert(d@ =~= low + high);
            assert(high =~= mirrored(s.skip(i - from)));
        }
    }
    proof {
        assert(s.skip(0) =~= s);
        digits::lemma_val_split(d@, low.len() as int);
        assert(d@.take(low.len() as int) =~= low);
        assert(d@.skip(low.len() as int) =~= high);
        lemma_mirrored(s);
    }
}

/// The digits of a text, the lowest first.
spec fn mirrored(s: Seq<char>) -> Seq<u8> {
    Seq::new(s.len(), |i: int| (s[s.len() - 1 - i] as int - 48) as u8)
}

proof fn lemma_mirrored(s: Seq<char>)
    requires
        text::all_digits(s),
    ensures
        digits::val(mirrored(s)) == text::number_of(s),
    decreases s.len(),
{
    if s.len() > 0 {
        lemma_mirrored(s.drop_last());
        assert(mirrored(s).drop_first() =~= mirrored(s.drop_last()));
    }
}

/// The whole number from `from` on, or a number as far out where it is far out.
fn read_whole(cs: &Vec<char>, from: usize) -> (r: i128)
    requires
        from <= cs@.len(),
        text::all_digits(cs@.skip(from as int)),
    ensures
        0 <= r <= 100 * FAR,
        r == text::number_of(cs@.skip(from as int)) || (r >= 2 * FAR && text::number_of(
            cs@.skip(from as int),
        ) >= 2 * FAR),
{
    let ghost s = cs@.skip(from as int);
    let mut v: i128 = 0;
    let mut i: usize = from;
    assert(s.take(0) =~= seq![]);
    while i < cs.len()
        invariant
            from <= i <= cs@.len(),
            s == cs@.skip(from as int),
            text::all_digits(s),
            0 <= v <= 100 * FAR,
            v == text::number_of(s.take(i - from)) || (v >= 2 * FAR && text::number_of(
                s.take(i - from),
            ) >= 2 * FAR),
        decreases cs@.len() - i,
    {
        let c: char = cs[i];
        proof {
            assert(c == s[i - from]);
            assert(s.take(i - from + 1).drop_last() =~= s.take(i - from));
        }
        let x: u8 = c as u8 - 48;
        if v < 2 * FAR {
            v = v * 10 + x as i128;
        }
        i = i + 1;
    }
    assert(s.take(i - from) =~= s);
    v
}

/// The exponent that the characters from `from` on write.
fn read_exponent(cs: &Vec<char>, from: usize) -> (r: Option<i128>)
    requires
        from <= cs@.len(),
    ensures
        r is Some == (exponent_of(cs@.skip(from as int)) is Some),
        r matches Some(e) ==> {
            let exact = exponent_of(cs@.skip(from as int))->0;
            &&& -100 * FAR <= e <= 100 * FAR
            &&& e == exact || (e >= 2 * FAR && exact >= 2 * FAR) || (e <= -2 * FAR && exact <= -2
                * FAR)
        },
{
    let ghost s = cs@.skip(from as int);
    if from == cs.len() {
        return Some(0);
    }
    assert(s[0] == cs@[from as int]);
    if cs[from] != 'e' && cs[from] != 'E' {
        return None;
    }
    let k: usize = from + 1;
    assert(s.skip(1) =~= cs@.skip(k as int));
    let negative: bool = k < cs.len() && cs[k] == '-';
    let start: usize = if k < cs.len() && (cs[k] == '-' || cs[k] == '+') {
        k + 1
    } else {
        k
    };
    let ghost u = sign_cut(s.skip(1)).1;
    assert(u =~= cs@.skip(start as int));
    let n: usize = run_from(cs, start);
    proof {
        lemma_run(cs@, start as int);
        if start + n == cs.len() {
            assert(u =~= cs@.subrange(start as int, start + n));
        } else {
            lemma_run_stops(cs@, start as int);
            assert(u[n as int] == cs@[start + n]);
        }
    }
    if n == 0 || start + n != cs.len() {
        return None;
    }
    let v: i128 = read_whole(cs, start);
    Some(
        if negative {
            -v
        } else {
            v
        },
    )
}

/// What follows a row of digits is none.
proof fn lemma_run_stops(s: Seq<char>, i: int)
    requires
        0 <= i <= s.len(),
        i + run(s, i) < s.len(),
    ensures
        !is_digit(s[i + run(s, i)]),
    decreases s.len() - i,
{
    if i < s.len() && is_digit(s[i]) {
        lemma_run_stops(s, i + 1);
    }
}

impl Double {
    /// The double that the text writes, if it writes one.
    pub fn parse(s: &str) -> (r: Option<Double>)
        ensures
            r == parsed(s@),
    {
        let cs: Vec<char> = text::chars_of(s);
        let negative: bool = cs.len() > 0 && cs[0] == '-';
        let start: usize = if cs.len() > 0 && (cs[0] == '-' || cs[0] == '+') {
            1
        } else {
            0
        };
        let ghost t = sign_cut(s@).1;
        assert(t =~= cs@.skip(start as int));
        if is_word(&cs, start, "inf") || is_word(&cs, start, "infinity") {
            return Some(compose(negative, INFINITE));
        }
        if is_word(&cs, start, "nan") {
            return Some(Double { bits: QUIET });
        }
        match read_plain(&tail(&cs, start)) {
            Some(m) => Some(compose(negative, m)),
            None => None,
        }
    }
}

/// The characters behind the point at `p`, up to `next`.
spec fn after_point(s: Seq<char>, p: int, next: int) -> Seq<char> {
    if p < next {
        s.subrange(p + 1, next)
    } else {
        seq![]
    }
}

/// The digits before the point at `p` and those behind it, up to `next`.
fn gather_both(cs: &Vec<char>, from: usize, p: usize, next: usize) -> (d: Vec<u8>)
    requires
        from <= p <= next <= cs@.len(),
        text::all_digits(cs@.subrange(from as int, p as int)),
        text::all_digits(after_point(cs@, p as int, next as int)),
    ensures
        digits::digits(d@),
        digits::val(d@) == text::number_of(
            cs@.subrange(from as int, p as int) + after_point(cs@, p as int, next as int),
        ),
{
    let ghost whole = cs@.subrange(from as int, p as int);
    let ghost fraction = after_point(cs@, p as int, next as int);
    let mut d: Vec<u8> = Vec::new();
    proof {
        digits::lemma_ten(0);
    }
    if p < next {
        gather(&mut d, cs, p + 1, next);
        assert(1 * text::number_of(fraction) == text::number_of(fraction));
    }
    assert(digits::val(d@) == text::number_of(fraction));
    assert(d@.len() == fraction.len());
    gather(&mut d, cs, from, p);
    proof {
        lemma_number_concat(whole, fraction);
        lemma_mul_is_commutative(
            digits::ten(fraction.len()) as int,
            text::number_of(whole) as int,
        );
    }
    d
}

/// Magnitude bits of the number that the characters write.
fn read_plain(cs: &Vec<char>) -> (r: Option<u64>)
    ensures
        match plain_number(cs@) {
            Some((d, e)) => r == Some(magnitude_of(d, e) as u64) && magnitude_of(d, e) <= INFINITE,
            None => r is None,
        },
{
    let n: usize = cs.len();
    let a: usize = run_from(cs, 0);
    let point: bool = a < n && cs[a] == '.';
    let b: usize = if point {
        run_from(cs, a + 1)
    } else {
        0
    };
    let next: usize = if point {
        a + 1 + b
    } else {
        a
    };
    let ghost fraction = after_point(cs@, a as int, next as int);
    proof {
        lemma_run(cs@, 0);
        if point {
            lemma_run(cs@, a + 1);
        }
        assert(cs@.subrange(0, a as int) =~= cs@.take(a as int));
        assert(point == (a < next));
    }
    let e: i128 = match read_exponent(cs, next) {
        Some(e) => e,
        None => {
            return None;
        },
    };
    if a == 0 && b == 0 {
        return None;
    }
    let mut d: Vec<u8> = gather_both(cs, 0, a, next);
    let ghost exact = exponent_of(cs@.skip(next as int))->0 - b;
    assert(plain_number(cs@) == Some((digits::val(d@), exact)));
    let shifted: i128 = e - b as i128;
    let near: i128 = if shifted > 2 * FAR {
        2 * FAR
    } else if shifted < -2 * FAR {
        -2 * FAR
    } else {
        shifted
    };
    assert(stands_for(near, exact));
    Some(read_scaled(&mut d, near, Ghost(exact)))
}

/// The characters from `from` on.
fn tail(cs: &Vec<char>, from: usize) -> (r: Vec<char>)
    requires
        from <= cs@.len(),
    ensures
        r@ == cs@.skip(from as int),
{
    let mut out: Vec<char> = Vec::new();
    let mut i: usize = from;
    while i < cs.len()
        invariant
            from <= i <= cs@.len(),
            out@ == cs@.subrange(from as int, i as int),
        decreases cs@.len() - i,
    {
        out.push(cs[i]);
        i = i + 1;
        assert(out@ =~= cs@.subrange(from as int, i as int));
    }
    assert(out@ =~= cs@.skip(from as int));
    out
}

/// Digits in front of others count as many powers of ten.
proof fn lemma_number_concat(a: Seq<char>, b: Seq<char>)
    requires
        text::all_digits(a),
        text::all_digits(b),
    ensures
        text::number_of(a + b) == text::number_of(a) * digits::ten(b.len()) + text::number_of(b),
    decreases b.len(),
{
    digits::lemma_ten(0);
    if b.len() == 0 {
        assert(a + b =~= a);
        assert(text::number_of(a) * 1 == text::number_of(a));
    } else {
        let c = b.drop_last();
        assert((a + b).drop_last() =~= a + c);
        assert(text::all_digits(c));
        lemma_number_concat(a, c);
        digits::lemma_ten(c.len());
        let x = text::number_of(a);
        let t = digits::ten(c.len());
        assert(10 * (x * t) == x * (10 * t)) by (nonlinear_arith);
    }
}

impl Double {
    /// The double nearest to `10^n`.
    pub open spec fn power_of_ten(n: nat) -> Double {
        double::signed(false, magnitude_of(1, n as int))
    }

    /// The double nearest to `10^n`.
    pub fn ten_to(n: u32) -> (r: Double)
        ensures
            r == Double::power_of_ten(n as nat),
    {
        let mut d: Vec<u8> = power_of_ten(0);
        proof {
            digits::lemma_ten(0);
        }
        compose(false, read_scaled(&mut d, n as i128, Ghost(n as int)))
    }
}

// ---------------------------------------------------------------------------
// Writing
// ---------------------------------------------------------------------------

/// The whole number nearest to `|x| * 10^prec`, ties to even.
pub open spec fn steps_of(x: Double, prec: nat) -> nat {
    double::nearest_even(double::units(x.magnitude()) * digits::ten(prec), double::one())
}

/// `n / 10^prec` with `prec` digits behind the point.
pub open spec fn point_text(n: nat, prec: nat) -> Seq<char> {
    if prec == 0 {
        text::decimal(n)
    } else {
        text::decimal(n / digits::ten(prec)) + seq!['.'] + text::zero_padded(
            (n % digits::ten(prec)) as int,
            prec,
        )
    }
}

/// `x` with `prec` digits behind the point, ties to the even digit.
pub open spec fn fixed_text(x: Double, prec: nat) -> Seq<char> {
    let sign = if x.negative() {
        seq!['-']
    } else {
        seq![]
    };
    if x.nan() {
        "NaN"@
    } else if x.infinite() {
        sign + "inf"@
    } else {
        sign + point_text(steps_of(x, prec), prec)
    }
}

/// `n` as digits.
fn digits_of(n: u64) -> (r: Vec<u8>)
    ensures
        digits::digits(r@),
        digits::val(r@) == n,
{
    let mut out: Vec<u8> = Vec::new();
    scale_up(&mut out, 1, n / 1_000_000_000);
    scale_up(&mut out, 1_000_000_000, n % 1_000_000_000);
    out
}

/// The whole number nearest to `d / 2^k`, ties to even.
fn shift_down(d: &mut Vec<u8>, k: u32)
    requires
        digits::digits(old(d)@),
        k > 0,
    ensures
        digits::digits(final(d)@),
        digits::val(final(d)@) == double::nearest_even(digits::val(old(d)@), pow2(k as nat)),
{
    let ghost n = digits::val(d@);
    let mut i: u32 = 1;
    let mut half: u8 = halve(d);
    let mut more: bool = false;
    let ghost mut low: nat = 0;
    proof {
        lemma2_to64();
        let q = digits::val(d@);
        assert(n == 2 * q + half);
        assert(pow2(1) * q == 2 * q) by (nonlinear_arith)
            requires
                pow2(1) == 2,
        ;
        assert(pow2(0) * half == half) by (nonlinear_arith)
            requires
                pow2(0) == 1,
        ;
    }
    while i < k
        invariant
            1 <= i <= k,
            digits::digits(d@),
            half <= 1,
            low < pow2((i - 1) as nat),
            more == (low > 0),
            n == pow2(i as nat) * digits::val(d@) + pow2((i - 1) as nat) * half + low,
        decreases k - i,
    {
        let ghost v = digits::val(d@);
        let ghost h0 = half;
        more = more || half > 0;
        half = halve(d);
        proof {
            let p = pow2((i - 1) as nat);
            lemma_pow2_unfold(i as nat);
            lemma_pow2_unfold((i + 1) as nat);
            lemma_pow2_pos((i - 1) as nat);
            let w = digits::val(d@);
            assert(v == 2 * w + half);
            assert(pow2(i as nat) * v == pow2((i + 1) as nat) * w + pow2(i as nat) * half)
                by (nonlinear_arith)
                requires
                    v == 2 * w + half,
                    pow2((i + 1) as nat) == 2 * pow2(i as nat),
            ;
            assert(p * h0 <= p && (h0 > 0 ==> p * h0 >= 1) && (h0 == 0 ==> p * h0 == 0))
                by (nonlinear_arith)
                requires
                    h0 <= 1,
                    p >= 1,
            ;
            low = (p * h0 + low) as nat;
        }
        i = i + 1;
    }
    let odd: bool = d.len() > 0 && d[0] % 2 == 1;
    proof {
        let p = pow2((k - 1) as nat);
        let q = digits::val(d@);
        lemma_pow2_unfold(k as nat);
        lemma_pow2_pos((k - 1) as nat);
        assert(p * half <= p && (half == 1 ==> p * half == p) && (half == 0 ==> p * half == 0))
            by (nonlinear_arith)
            requires
                half <= 1,
                p >= 1,
        ;
        lemma_mul_is_commutative(pow2(k as nat) as int, q as int);
        lemma_fundamental_div_mod_converse(
            n as int,
            pow2(k as nat) as int,
            q as int,
            (p * half + low) as int,
        );
        assert(odd == (q % 2 == 1));
    }
    if half == 1 && (more || odd) {
        scale_up(d, 1, 1);
    }
}

/// `d * 2^k`.
fn shift_up(d: &mut Vec<u8>, k: u32)
    requires
        digits::digits(old(d)@),
    ensures
        digits::digits(final(d)@),
        digits::val(final(d)@) == digits::val(old(d)@) * pow2(k as nat),
{
    let ghost n = digits::val(d@);
    let mut i: u32 = 0;
    proof {
        lemma2_to64();
        assert(n * pow2(0) == n);
    }
    while i < k
        invariant
            i <= k,
            digits::digits(d@),
            digits::val(d@) == n * pow2(i as nat),
        decreases k - i,
    {
        proof {
            lemma_pow2_unfold((i + 1) as nat);
            assert(n * pow2(i as nat) * 2 == n * pow2((i + 1) as nat)) by (nonlinear_arith)
                requires
                    pow2((i + 1) as nat) == 2 * pow2(i as nat),
            ;
        }
        scale_up(d, 2, 0);
        i = i + 1;
    }
}

/// Digits without a needless zero in front are those of their number.
proof fn lemma_canonical(s: Seq<char>)
    requires
        text::all_digits(s),
        s.len() > 0,
        s.len() == 1 || s[0] != '0',
    ensures
        s == text::decimal(text::number_of(s)),
        s.len() > 1 ==> text::number_of(s) >= 10,
        s[0] != '0' ==> text::number_of(s) > 0,
    decreases s.len(),
{
    let t = s.drop_last();
    if s.len() == 1 {
        assert(t =~= seq![]);
        assert(text::number_of(t) == 0);
        assert(s =~= text::decimal(text::number_of(s)));
    } else {
        assert(text::all_digits(t));
        lemma_canonical(t);
        assert(s =~= t.push(s.last()));
        assert(s =~= text::decimal(text::number_of(s)));
    }
}

/// Digits of one length are told apart by their numbers.
proof fn lemma_same_digits(a: Seq<char>, b: Seq<char>)
    requires
        text::all_digits(a),
        text::all_digits(b),
        a.len() == b.len(),
        text::number_of(a) == text::number_of(b),
    ensures
        a == b,
    decreases a.len(),
{
    if a.len() > 0 {
        assert(text::all_digits(a.drop_last()));
        assert(text::all_digits(b.drop_last()));
        assert(a.last() == a[a.len() - 1]);
        assert(b.last() == b[b.len() - 1]);
        lemma_same_digits(a.drop_last(), b.drop_last());
        assert(a =~= a.drop_last().push(a.last()));
        assert(b =~= b.drop_last().push(b.last()));
    }
    assert(a =~= b);
}

proof fn lemma_decimal_size(n: nat, k: nat)
    requires
        k > 0,
        n < digits::ten(k),
    ensures
        text::decimal(n).len() <= k,
    decreases k,
{
    digits::lemma_ten(0);
    digits::lemma_ten((k - 1) as nat);
    if n >= 10 {
        if k == 1 {
            assert(false);
        }
        lemma_decimal_size(n / 10, (k - 1) as nat);
    }
}

/// Digits are those of their number, filled with zeros.
proof fn lemma_padded(s: Seq<char>)
    requires
        text::all_digits(s),
        s.len() > 0,
        text::number_of(s) < digits::ten(s.len()),
    ensures
        s == text::zero_padded(text::number_of(s) as int, s.len()),
{
    let n = text::number_of(s);
    lemma_decimal_size(n, s.len());
    text::lemma_zero_padded(n as int, s.len());
    lemma_same_digits(s, text::zero_padded(n as int, s.len()));
}

/// Digits, the highest first, as characters.
spec fn faced(d: Seq<u8>) -> Seq<char> {
    Seq::new(d.len(), |i: int| (d[d.len() - 1 - i] as int + 48) as char)
}

proof fn lemma_faced(d: Seq<u8>)
    requires
        digits::digits(d),
    ensures
        text::all_digits(faced(d)),
        text::number_of(faced(d)) == digits::val(d),
    decreases d.len(),
{
    if d.len() > 0 {
        let t = d.drop_first();
        assert(digits::digits(t)) by {
            assert forall|i: int| 0 <= i < t.len() implies #[trigger] t[i] <= 9 by {
                assert(t[i] == d[i + 1]);
            }
        }
        lemma_faced(t);
        assert(faced(d).drop_last() =~= faced(t));
        assert(faced(d).last() == (d[0] as int + 48) as char);
    }
}

/// Puts the digits from the position `to` down to `from` behind `out`.
fn push_digits(out: &mut String, d: &Vec<u8>, from: usize, to: usize)
    requires
        digits::digits(d@),
        from <= to <= d@.len(),
    ensures
        final(out)@ == old(out)@ + faced(d@.subrange(from as int, to as int)),
{
    let ghost head = out@;
    let mut i: usize = to;
    let ghost all = faced(d@.subrange(from as int, to as int));
    assert(head + all.take(0) =~= head);
    while i > from
        invariant
            from <= i <= to <= d@.len(),
            digits::digits(d@),
            all == faced(d@.subrange(from as int, to as int)),
            out@ == head + all.take(to - i),
        decreases i - from,
    {
        i = i - 1;
        out.push((d[i] + 48) as char);
        proof {
            assert(all[to - i - 1] == (d@[i as int] as int + 48) as char);
            assert(all.take(to - i) =~= all.take(to - i - 1).push(all[to - i - 1]));
            assert(out@ =~= head + all.take(to - i));
        }
    }
    assert(all.take(to - from) =~= all);
}

/// Puts `d / 10^prec` behind `out`, with `prec` digits behind the point.
fn push_point(out: &mut String, d: &mut Vec<u8>, prec: usize)
    requires
        digits::digits(old(d)@),
    ensures
        final(out)@ == old(out)@ + point_text(digits::val(old(d)@), prec as nat),
{
    let ghost n = digits::val(d@);
    let ghost head = out@;
    trim(d);
    while d.len() <= prec
        invariant
            digits::digits(d@),
            digits::val(d@) == n,
            d@.len() > prec ==> d@.len() == prec + 1 || d@.last() > 0,
        decreases prec + 1 - d@.len(),
    {
        let ghost before = d@;
        d.push(0);
        proof {
            let k = before.len() as int;
            assert(d@.take(k) =~= before);
            assert(d@.skip(k) =~= seq![0u8]);
            assert(seq![0u8].drop_first() =~= seq![]);
            assert(digits::val(seq![0u8]) == 0) by {
                assert(digits::val(seq![0u8].drop_first()) == 0);
            }
            digits::lemma_val_split(d@, k);
            assert(digits::ten(k as nat) * 0 == 0);
        }
    }
    let size: usize = d.len();
    let ghost whole = d@.subrange(prec as int, size as int);
    let ghost part = d@.subrange(0, prec as int);
    proof {
        assert(whole =~= d@.skip(prec as int));
        assert(part =~= d@.take(prec as int));
        assert(digits::digits(whole)) by {
            assert forall|i: int| 0 <= i < whole.len() implies #[trigger] whole[i] <= 9 by {
                assert(whole[i] == d@[prec + i]);
            }
        }
        assert(digits::digits(part)) by {
            assert forall|i: int| 0 <= i < part.len() implies #[trigger] part[i] <= 9 by {
                assert(part[i] == d@[i]);
            }
        }
        digits::lemma_val_split(d@, prec as int);
        digits::lemma_val_bound(part);
        lemma_faced(whole);
        lemma_faced(part);
        lemma_mul_is_commutative(digits::ten(prec as nat) as int, digits::val(whole) as int);
        lemma_fundamental_div_mod_converse(
            n as int,
            digits::ten(prec as nat) as int,
            digits::val(whole) as int,
            digits::val(part) as int,
        );
        assert(faced(whole)[0] == (d@.last() as int + 48) as char);
        lemma_canonical(faced(whole));
    }
    push_digits(out, d, prec, size);
    if prec > 0 {
        proof {
            lemma_padded(faced(part));
        }
        out.push('.');
        push_digits(out, d, 0, prec);
        assert(out@ =~= head + point_text(n, prec as nat));
    } else {
        proof {
            digits::lemma_ten(0);
            assert(part =~= seq![]);
            assert(1 * digits::val(whole) == digits::val(whole));
            lemma_div_basics(n as int);
            assert(digits::val(part) == 0);
        }
        assert(out@ =~= head + point_text(n, prec as nat));
    }
}

/// The whole number nearest to `|x| * 10^prec`, as digits.
fn scaled_digits(x: Double, prec: usize) -> (d: Vec<u8>)
    requires
        x.finite(),
    ensures
        digits::digits(d@),
        digits::val(d@) == steps_of(x, prec as nat),
{
    let a: u64 = x.magnitude_bits();
    let (m, e): (u64, i32) = split(a);
    let mut d: Vec<u8> = raised(&digits_of(m), prec as u128);
    let ghost t = digits::ten(prec as nat);
    let ghost n = (m * t) as nat;
    proof {
        digits::lemma_ten(prec as nat);
        lemma_pow2_pos(1074);
        lemma_pow2_pos(e as nat);
    }
    if e >= 1074 {
        let k: u32 = (e - 1074) as u32;
        shift_up(&mut d, k);
        proof {
            lemma_pow2_adds(k as nat, 1074);
            let w = n * pow2(k as nat);
            assert(double::units(a as nat) * t == w * double::one()) by (nonlinear_arith)
                requires
                    double::units(a as nat) == m * pow2(e as nat),
                    pow2(e as nat) == pow2(k as nat) * double::one(),
                    n == m * t,
                    w == n * pow2(k as nat),
            ;
            double::lemma_nearest_cancel(w, 1, double::one());
            lemma_div_basics(w as int);
            assert(w % 1 == 0);
            assert(1 * double::one() == double::one());
        }
    } else {
        let k: u32 = (1074 - e) as u32;
        shift_down(&mut d, k);
        proof {
            lemma_pow2_adds(k as nat, e as nat);
            lemma_pow2_pos(k as nat);
            assert(double::units(a as nat) * t == n * pow2(e as nat)) by (nonlinear_arith)
                requires
                    double::units(a as nat) == m * pow2(e as nat),
                    n == m * t,
            ;
            double::lemma_nearest_cancel(n, pow2(k as nat), pow2(e as nat));
        }
    }
    d
}

impl Double {
    /// The number with `prec` digits behind the point, ties to the even digit.
    pub fn fixed(self, prec: usize) -> (r: String)
        ensures
            r@ == fixed_text(self, prec as nat),
    {
        let mut out: String = String::new();
        let a: u64 = self.magnitude_bits();
        if a > INFINITE {
            return "NaN".to_owned();
        }
        if self.is_negative() {
            out.push('-');
        }
        if a == INFINITE {
            out.append("inf");
        } else {
            let mut d: Vec<u8> = scaled_digits(self, prec);
            push_point(&mut out, &mut d, prec);
        }
        assert(out@ =~= fixed_text(self, prec as nat));
        out
    }
}

} // verus!
