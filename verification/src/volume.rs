//! What the bins of a profile hold of the volume that was traded.
//!
//! Volumes, shares and bins are doubles, so every sum and every share is
//! rounded. The laws here bound what the roundings of a whole profile come to.

use crate::double;
use crate::double::Double;
use crate::profile;
use crate::profile::{Bar, BINS};
use crate::rounding;
use crate::rounding::PARTS;
use vstd::arithmetic::mul::*;
use vstd::arithmetic::power::*;
use vstd::arithmetic::power2::*;
use vstd::prelude::*;

verus! {

/// Whether `x` is at most `y`, but for `m` roundings: `y * (1 + 2^-53)^m` bounds it.
pub open spec fn at_most_rounded(x: int, y: int, m: nat) -> bool {
    x * pow(PARTS as int, m) <= y * pow(PARTS + 1, m)
}

/// Whether `x` is at least `y`, but for `m` roundings: `y * (1 - 2^-53)^m` bounds it.
pub open spec fn at_least_rounded(x: int, y: int, m: nat) -> bool {
    y * pow(PARTS - 1, m) <= x * pow(PARTS as int, m)
}

/// What some bars come to where each counts as `f` says.
pub open spec fn counted(bars: Seq<Bar>, f: spec_fn(Bar) -> int) -> int
    decreases bars.len(),
{
    if bars.len() == 0 {
        0
    } else {
        counted(bars.drop_last(), f) + f(bars.last())
    }
}

/// The exact volume of some bars, in units.
pub open spec fn traded(bars: Seq<Bar>) -> int {
    counted(bars, |b: Bar| b.v.value())
}

/// The exact sum of the first `n` bins, in units.
pub open spec fn held_by(prof: Seq<Double>, n: nat) -> int
    decreases n,
{
    if n == 0 {
        0
    } else {
        held_by(prof, (n - 1) as nat) + prof[n - 1].value()
    }
}

/// Whether the volume of every bar is a finite number that is not below zero.
pub open spec fn volumes_told(bars: Seq<Bar>) -> bool {
    forall|i: int|
        0 <= i < bars.len() ==> (#[trigger] bars[i]).v.finite() && bars[i].v.value() >= 0
}

// ---------------------------------------------------------------------------
// Roundings
// ---------------------------------------------------------------------------

proof fn lemma_powers(m: nat)
    ensures
        pow(PARTS as int, m) > 0,
        pow(PARTS + 1, m) > 0,
        pow(PARTS - 1, m) > 0,
        pow(PARTS as int, m + 1) == PARTS * pow(PARTS as int, m),
        pow(PARTS + 1, m + 1) == (PARTS + 1) * pow(PARTS + 1, m),
        pow(PARTS - 1, m + 1) == (PARTS - 1) * pow(PARTS - 1, m),
        pow(PARTS - 1, m) <= pow(PARTS as int, m) <= pow(PARTS + 1, m),
    decreases m,
{
    reveal(pow);
    lemma_pow_positive(PARTS as int, m);
    lemma_pow_positive(PARTS + 1, m);
    lemma_pow_positive(PARTS - 1, m);
    if m > 0 {
        let k = (m - 1) as nat;
        lemma_powers(k);
        lemma_mul_inequality(pow(PARTS - 1, k), pow(PARTS as int, k), PARTS as int);
        lemma_mul_inequality(pow(PARTS as int, k), pow(PARTS + 1, k), PARTS as int);
        lemma_mul_is_commutative(PARTS as int, pow(PARTS - 1, k));
        lemma_mul_is_commutative(PARTS as int, pow(PARTS as int, k));
        lemma_mul_is_commutative(PARTS as int, pow(PARTS + 1, k));
    }
}

/// What is added is bounded by what bounds are added.
proof fn lemma_rounded_sum(x1: int, y1: int, x2: int, y2: int, m: nat)
    ensures
        at_most_rounded(x1, y1, m) && at_most_rounded(x2, y2, m) ==> at_most_rounded(
            x1 + x2,
            y1 + y2,
            m,
        ),
        at_least_rounded(x1, y1, m) && at_least_rounded(x2, y2, m) ==> at_least_rounded(
            x1 + x2,
            y1 + y2,
            m,
        ),
{
    lemma_mul_is_distributive_add_other_way(pow(PARTS as int, m), x1, x2);
    lemma_mul_is_distributive_add_other_way(pow(PARTS + 1, m), y1, y2);
    lemma_mul_is_distributive_add_other_way(pow(PARTS - 1, m), y1, y2);
}

/// What is not rounded is bounded by itself.
proof fn lemma_not_rounded(x: int, m: nat)
    requires
        x >= 0,
    ensures
        at_most_rounded(x, x, m),
        at_least_rounded(x, x, m),
        at_least_rounded(x, -x, m),
{
    lemma_powers(m);
    lemma_mul_inequality(pow(PARTS as int, m), pow(PARTS + 1, m), x);
    lemma_mul_inequality(pow(PARTS - 1, m), pow(PARTS as int, m), x);
    lemma_mul_is_commutative(x, pow(PARTS as int, m));
    lemma_mul_is_commutative(x, pow(PARTS + 1, m));
    lemma_mul_is_commutative(x, pow(PARTS - 1, m));
    lemma_mul_nonnegative(x, pow(PARTS - 1, m));
    lemma_mul_nonnegative(x, pow(PARTS as int, m));
    lemma_mul_unary_negation(x, pow(PARTS - 1, m));
}

/// One more rounding.
proof fn lemma_rounded_up(x: int, exact: int, y: int, m: nat)
    requires
        at_most_rounded(exact, y, m),
        x * PARTS <= exact * (PARTS + 1),
    ensures
        at_most_rounded(x, y, m + 1),
{
    lemma_powers(m);
    let p = pow(PARTS as int, m);
    let q = pow(PARTS + 1, m);
    let t: int = PARTS as int;
    assert(x * (t * p) <= y * ((t + 1) * q)) by (nonlinear_arith)
        requires
            x * t <= exact * (t + 1),
            exact * p <= y * q,
            p > 0,
            t > 0,
    {
        assert((x * t) * p <= (exact * (t + 1)) * p);
        assert((exact * p) * (t + 1) <= (y * q) * (t + 1));
    }
}

proof fn lemma_rounded_down(x: int, exact: int, y: int, m: nat)
    requires
        at_least_rounded(exact, y, m),
        x * PARTS >= exact * (PARTS - 1),
    ensures
        at_least_rounded(x, y, m + 1),
{
    lemma_powers(m);
    let p = pow(PARTS as int, m);
    let q = pow(PARTS - 1, m);
    let t: int = PARTS as int;
    assert(y * ((t - 1) * q) <= x * (t * p)) by (nonlinear_arith)
        requires
            x * t >= exact * (t - 1),
            y * q <= exact * p,
            p > 0,
            t > 1,
    {
        assert((x * t) * p >= (exact * (t - 1)) * p);
        assert((exact * p) * (t - 1) >= (y * q) * (t - 1));
    }
}

/// A bound for some roundings is one for more of them.
proof fn lemma_more_roundings(x: int, y: int, m: nat, more: nat)
    requires
        x >= 0,
        m <= more,
    ensures
        at_most_rounded(x, y, m) ==> at_most_rounded(x, y, more),
        at_least_rounded(x, y, m) ==> at_least_rounded(x, y, more),
    decreases more - m,
{
    if m < more {
        lemma_more_roundings(x, y, m, (more - 1) as nat);
        let k = (more - 1) as nat;
        assert(x * PARTS <= x * (PARTS + 1) && x * PARTS >= x * (PARTS - 1));
        if at_most_rounded(x, y, m) {
            lemma_rounded_up(x, x, y, k);
        }
        if at_least_rounded(x, y, m) {
            lemma_rounded_down(x, x, y, k);
        }
    }
}

/// The growth of some roundings, in plain fractions.
proof fn lemma_growth(m: nat)
    ensures
        pow(PARTS + 1, m) * (PARTS - m) <= PARTS * pow(PARTS as int, m),
        pow(PARTS as int, m) * (PARTS - m) <= PARTS * pow(PARTS - 1, m),
    decreases m,
{
    let t: int = PARTS as int;
    if m == 0 {
        lemma_pow0(t);
        lemma_pow0(t + 1);
        lemma_pow0(t - 1);
    } else {
        let k = (m - 1) as nat;
        lemma_growth(k);
        lemma_powers(k);
        let p = pow(t, k);
        let q = pow(t + 1, k);
        let r = pow(t - 1, k);
        assert(((t + 1) * q) * (t - k - 1) <= t * (t * p)) by (nonlinear_arith)
            requires
                q * (t - k) <= t * p,
                q > 0,
                t > 0,
                k >= 0,
        {
            assert((t + 1) * (t - k - 1) <= t * (t - k));
            assert(((t + 1) * (t - k - 1)) * q <= (t * (t - k)) * q);
            assert(t * (q * (t - k)) <= t * (t * p));
        }
        assert((t * p) * (t - k - 1) <= t * ((t - 1) * r)) by (nonlinear_arith)
            requires
                p * (t - k) <= t * r,
                p > 0,
                t > 1,
                k >= 0,
        {
            assert(t * (t - k - 1) <= (t - 1) * (t - k));
            assert((t * (t - k - 1)) * p <= ((t - 1) * (t - k)) * p);
            assert((t - 1) * (p * (t - k)) <= (t - 1) * (t * r));
        }
    }
}

/// What some roundings come to, in plain fractions: at most one part in `PARTS`
/// for each.
proof fn lemma_in_fractions(x: int, y: int, m: nat)
    requires
        m <= PARTS,
        y >= 0,
    ensures
        at_most_rounded(x, y, m) ==> x * (PARTS - m) <= y * PARTS,
        at_least_rounded(x, y, m) ==> x * PARTS >= y * (PARTS - m),
{
    lemma_growth(m);
    lemma_powers(m);
    let t: int = PARTS as int;
    let p = pow(t, m);
    let q = pow(t + 1, m);
    let r = pow(t - 1, m);
    let d: int = t - m;
    if at_most_rounded(x, y, m) {
        assert(x * d <= y * t) by (nonlinear_arith)
            requires
                x * p <= y * q,
                q * d <= t * p,
                p > 0,
                d >= 0,
                y >= 0,
        {
            assert((x * p) * d <= (y * q) * d);
            assert(y * (q * d) <= y * (t * p));
            assert((x * d) * p <= (y * t) * p);
        }
    }
    if at_least_rounded(x, y, m) {
        assert(x * t >= y * d) by (nonlinear_arith)
            requires
                y * r <= x * p,
                p * d <= t * r,
                p > 0,
                t > 0,
                y >= 0,
        {
            assert((y * r) * t <= (x * p) * t);
            assert(y * (p * d) <= y * (t * r));
            assert((y * d) * p <= (x * t) * p);
        }
    }
}

// ---------------------------------------------------------------------------
// Buckets
// ---------------------------------------------------------------------------

/// The volume of a bucket is its exact volume, but for one rounding for each bar.
proof fn lemma_bucket_volume(bucket: Seq<Bar>)
    requires
        volumes_told(bucket),
    ensures
        traded(bucket) >= 0,
        rounding::not_below_zero(profile::volume(bucket)),
        profile::volume(bucket).finite() ==> {
            &&& at_most_rounded(profile::volume(bucket).value(), traded(bucket), bucket.len())
            &&& at_least_rounded(profile::volume(bucket).value(), traded(bucket), bucket.len())
        },
    decreases bucket.len(),
{
    if bucket.len() == 0 {
        double::lemma_positive(Double { bits: 0 });
        lemma_not_rounded(0, 0);
    } else {
        let rest = bucket.drop_last();
        assert(volumes_told(rest)) by {
            assert forall|i: int| 0 <= i < rest.len() implies (#[trigger] rest[i]).v.finite()
                && rest[i].v.value() >= 0 by {
                assert(rest[i] == bucket[i]);
            }
        }
        lemma_bucket_volume(rest);
        let a = profile::volume(rest);
        let b = bucket[bucket.len() - 1].v;
        rounding::lemma_sum_rounded(a, b);
        if profile::volume(bucket).finite() {
            let m = rest.len();
            lemma_not_rounded(b.value(), m);
            lemma_rounded_sum(a.value(), traded(rest), b.value(), b.value(), m);
            let x = profile::volume(bucket).value();
            lemma_rounded_up(x, a.value() + b.value(), traded(bucket), m);
            lemma_rounded_down(x, a.value() + b.value(), traded(bucket), m);
        }
    }
}

/// The bars of a bucket are bars of the session.
proof fn lemma_of_session(bars: Seq<Bar>, start: i64, bucket: int)
    requires
        volumes_told(bars),
    ensures
        volumes_told(profile::in_bucket(bars, start, bucket)),
        profile::in_bucket(bars, start, bucket).len() <= bars.len(),
    decreases bars.len(),
{
    reveal(Seq::filter);
    if bars.len() > 0 {
        let rest = bars.drop_last();
        assert forall|i: int| 0 <= i < rest.len() implies (#[trigger] rest[i]).v.finite()
            && rest[i].v.value() >= 0 by {
            assert(rest[i] == bars[i]);
        }
        lemma_of_session(rest, start, bucket);
        assert(bars[bars.len() - 1].v.finite());
    }
}

/// What the first `n` buckets come to where each bar counts as `f` says.
pub open spec fn gathered(
    bars: Seq<Bar>,
    start: i64,
    n: nat,
    f: spec_fn(Bar) -> int,
) -> int
    decreases n,
{
    if n == 0 {
        0
    } else {
        gathered(bars, start, (n - 1) as nat, f) + counted(
            profile::in_bucket(bars, start, n - 1),
            f,
        )
    }
}

/// A bar more counts in its own bucket.
proof fn lemma_gathered_one(bars: Seq<Bar>, start: i64, n: nat, f: spec_fn(Bar) -> int)
    requires
        bars.len() > 0,
    ensures
        gathered(bars, start, n, f) == gathered(bars.drop_last(), start, n, f)
            + if profile::bucket_of(bars.last(), start) < n {
            f(bars.last())
        } else {
            0
        },
    decreases n,
{
    reveal(Seq::filter);
    if n > 0 {
        lemma_gathered_one(bars, start, (n - 1) as nat, f);
        let own = profile::in_bucket(bars.drop_last(), start, n - 1);
        assert(own.push(bars.last()).drop_last() =~= own);
    }
}

/// Every bar counts in one bucket.
proof fn lemma_all_gathered(bars: Seq<Bar>, start: i64, n: nat, f: spec_fn(Bar) -> int)
    requires
        forall|i: int|
            0 <= i < bars.len() ==> profile::bucket_of(#[trigger] bars[i], start) < n,
    ensures
        gathered(bars, start, n, f) == counted(bars, f),
    decreases bars.len(),
{
    if bars.len() == 0 {
        lemma_none_gathered(bars, start, n, f);
    } else {
        let rest = bars.drop_last();
        assert forall|i: int| 0 <= i < rest.len() implies profile::bucket_of(
            #[trigger] rest[i],
            start,
        ) < n by {
            assert(rest[i] == bars[i]);
        }
        lemma_all_gathered(rest, start, n, f);
        lemma_gathered_one(bars, start, n, f);
        assert(profile::bucket_of(bars[bars.len() - 1], start) < n);
    }
}

proof fn lemma_none_gathered(bars: Seq<Bar>, start: i64, n: nat, f: spec_fn(Bar) -> int)
    requires
        bars.len() == 0,
    ensures
        gathered(bars, start, n, f) == 0,
    decreases n,
{
    reveal(Seq::filter);
    if n > 0 {
        lemma_none_gathered(bars, start, (n - 1) as nat, f);
    }
}

// ---------------------------------------------------------------------------
// Bins
// ---------------------------------------------------------------------------

/// Whether no bin is below zero.
pub open spec fn bins_told(prof: Seq<Double>) -> bool {
    forall|k: int| 0 <= k < prof.len() ==> rounding::not_below_zero(#[trigger] prof[k])
}

/// Whether no bin has overflowed.
pub open spec fn bins_finite(prof: Seq<Double>) -> bool {
    forall|k: int| 0 <= k < prof.len() ==> (#[trigger] prof[k]).finite()
}

/// How many of the first `n` bins lie between `a` and `z`.
pub open spec fn within(a: int, z: int, n: int) -> int {
    if n <= a {
        0
    } else if n <= z {
        n - a
    } else {
        z - a + 1
    }
}

/// A share more in some bins: their sum is what they held and the shares, but
/// for one rounding.
proof fn lemma_share_in_bins(
    prof: Seq<Double>,
    next: Seq<Double>,
    share: Double,
    a: int,
    z: int,
    n: nat,
)
    requires
        0 <= a <= z,
        n <= prof.len(),
        next.len() == prof.len(),
        bins_told(prof),
        bins_finite(next),
        rounding::not_below_zero(share),
        forall|k: int|
            0 <= k < prof.len() ==> #[trigger] next[k] == if a <= k <= z {
                prof[k].sum(share)
            } else {
                prof[k]
            },
    ensures
        held_by(prof, n) >= 0,
        held_by(next, n) >= 0,
        ({
            let exact = held_by(prof, n) + within(a, z, n as int) * share.value();
            &&& held_by(next, n) * PARTS <= exact * (PARTS + 1)
            &&& held_by(next, n) * PARTS >= exact * (PARTS - 1)
        }),
    decreases n,
{
    if n > 0 {
        let k = n - 1;
        lemma_share_in_bins(prof, next, share, a, z, k as nat);
        rounding::lemma_sum_rounded(prof[k], share);
        assert(rounding::not_below_zero(prof[k]));
        assert(next[k].finite());
        let s = share.value();
        if a <= k <= z {
            assert(within(a, z, n as int) == within(a, z, k) + 1);
            lemma_mul_is_distributive_add_other_way(s, within(a, z, k), 1);
        } else {
            assert(within(a, z, n as int) == within(a, z, k));
        }
    } else {
        lemma_mul_basics(share.value());
    }
}

proof fn lemma_wider(x: int, y: int, wider: int, m: nat)
    ensures
        at_most_rounded(x, y, m) && y <= wider ==> at_most_rounded(x, wider, m),
        at_least_rounded(x, y, m) && wider <= y ==> at_least_rounded(x, wider, m),
{
    lemma_powers(m);
    if y <= wider {
        lemma_mul_inequality(y, wider, pow(PARTS + 1, m));
    }
    if wider <= y {
        lemma_mul_inequality(wider, y, pow(PARTS - 1, m));
    }
}

/// The shares of a bucket are together its volume, but for its roundings and for
/// half a unit in each bin.
proof fn lemma_shares(bucket: Seq<Bar>, c: nat, share: Double, m: nat)
    requires
        volumes_told(bucket),
        0 < c <= BINS,
        share == profile::volume(bucket).quotient(Double::whole(c as int)),
        share.finite(),
        bucket.len() + 1 <= m,
    ensures
        at_most_rounded(2 * (c * share.value()), 2 * traded(bucket) + BINS, m),
        at_least_rounded(2 * (c * share.value()) + BINS, 2 * traded(bucket), m),
{
    let v = profile::volume(bucket);
    let j = bucket.len();
    lemma_bucket_volume(bucket);
    rounding::lemma_share_rounded(v, c);
    let x = 2 * (c * share.value());
    lemma_mul_nonnegative(c as int, share.value());
    lemma_rounded_sum(v.value(), traded(bucket), v.value(), traded(bucket), j);
    lemma_not_rounded(c as int, j);
    lemma_rounded_sum(2 * v.value(), 2 * traded(bucket), c as int, c as int, j);
    lemma_rounded_up(x, 2 * v.value() + c, 2 * traded(bucket) + c, j);
    lemma_wider(x, 2 * traded(bucket) + c, 2 * traded(bucket) + BINS, j + 1);
    lemma_more_roundings(x, 2 * traded(bucket) + BINS, j + 1, m);
    lemma_rounded_down(x + BINS, 2 * v.value(), 2 * traded(bucket), j);
    lemma_more_roundings(x + BINS, 2 * traded(bucket), j + 1, m);
}

/// A bucket more: the bins hold its volume too, but for its roundings and one
/// more, and for half a unit in each bin.
proof fn lemma_spread(
    prof: Seq<Double>,
    bucket: Seq<Bar>,
    hi: Double,
    lo: Double,
    w: Double,
    before: int,
    slack: int,
    m: nat,
)
    requires
        prof.len() == BINS,
        bins_told(prof),
        volumes_told(bucket),
        0 < bucket.len() < m,
        0 <= slack,
        bins_finite(prof) ==> {
            &&& at_most_rounded(2 * held_by(prof, BINS as nat), before + slack, m)
            &&& at_least_rounded(2 * held_by(prof, BINS as nat) + slack, before, m)
        },
    ensures
        ({
            let next = profile::spread(prof, bucket, hi, lo, w);
            let after = before + 2 * traded(bucket);
            &&& next.len() == BINS
            &&& bins_told(next)
            &&& bins_finite(next) ==> {
                &&& at_most_rounded(
                    2 * held_by(next, BINS as nat),
                    after + slack + BINS,
                    m + 1,
                )
                &&& at_least_rounded(
                    2 * held_by(next, BINS as nat) + slack + BINS,
                    after,
                    m + 1,
                )
            }
        }),
{
    let next = profile::spread(prof, bucket, hi, lo, w);
    let a = profile::bin_of(profile::lowest(bucket), lo, w, 0);
    let z = profile::bin_of(profile::highest(bucket).smaller(hi), lo, w, a);
    let c = (z - a + 1) as nat;
    let share = profile::volume(bucket).quotient(Double::whole(z - a + 1));
    lemma_bucket_volume(bucket);
    rounding::lemma_share_rounded(profile::volume(bucket), c);
    assert forall|k: int| 0 <= k < next.len() implies rounding::not_below_zero(
        #[trigger] next[k],
    ) by {
        assert(rounding::not_below_zero(prof[k]));
        rounding::lemma_sum_rounded(prof[k], share);
    }
    if bins_finite(next) {
        assert forall|k: int| 0 <= k < prof.len() implies (#[trigger] prof[k]).finite() by {
            assert(next[k].finite());
            assert(rounding::not_below_zero(prof[k]));
            rounding::lemma_sum_rounded(prof[k], share);
        }
        assert(next[a].finite());
        assert(rounding::not_below_zero(prof[a]));
        rounding::lemma_sum_rounded(prof[a], share);
        lemma_shares(bucket, c, share, m);
        lemma_share_in_bins(prof, next, share, a, z, BINS as nat);
        let x = 2 * held_by(prof, BINS as nat);
        let y = 2 * (c * share.value());
        let r = 2 * held_by(next, BINS as nat);
        let v = 2 * traded(bucket);
        lemma_rounded_sum(x, before + slack, y, v + BINS, m);
        lemma_rounded_up(r, x + y, before + slack + (v + BINS), m);
        lemma_rounded_sum(x + slack, before, y + BINS, v, m);
        lemma_rounded_down(r + slack + BINS, (x + slack) + (y + BINS), before + v, m);
    }
}

/// The bins of the first buckets hold their volume, but for the roundings.
proof fn lemma_filled(
    bars: Seq<Bar>,
    start: i64,
    hi: Double,
    lo: Double,
    w: Double,
    n: nat,
)
    requires
        volumes_told(bars),
    ensures
        ({
            let prof = profile::filled(bars, start, hi, lo, w, n);
            let all = 2 * gathered(bars, start, n, |b: Bar| b.v.value());
            let count = gathered(bars, start, n, |b: Bar| 1);
            let m = (bars.len() + 1 + count) as nat;
            &&& count >= 0
            &&& prof.len() == BINS
            &&& bins_told(prof)
            &&& bins_finite(prof) ==> {
                &&& at_most_rounded(2 * held_by(prof, BINS as nat), all + BINS * count, m)
                &&& at_least_rounded(2 * held_by(prof, BINS as nat) + BINS * count, all, m)
            }
        }),
    decreases n,
{
    let f = |b: Bar| b.v.value();
    let one = |b: Bar| 1int;
    let prof = profile::filled(bars, start, hi, lo, w, n);
    if n == 0 {
        double::lemma_positive(Double { bits: 0 });
        lemma_no_bins(prof, BINS as nat);
        lemma_not_rounded(0, (bars.len() + 1) as nat);
    } else {
        let k = (n - 1) as nat;
        let bucket = profile::in_bucket(bars, start, n - 1);
        let before = profile::filled(bars, start, hi, lo, w, k);
        lemma_filled(bars, start, hi, lo, w, k);
        lemma_of_session(bars, start, n - 1);
        lemma_count_one(bucket);
        let all = 2 * gathered(bars, start, k, f);
        let count = gathered(bars, start, k, one);
        let m = (bars.len() + 1 + count) as nat;
        if bucket.len() > 0 {
            lemma_spread(before, bucket, hi, lo, w, all, BINS * count, m);
            if bins_finite(prof) {
                let x = 2 * held_by(prof, BINS as nat);
                let after = all + 2 * traded(bucket);
                let j = bucket.len();
                assert(prof.len() == BINS);
                lemma_bins_held(prof, BINS as nat);
                assert(BINS * count + BINS <= BINS * (count + j));
                lemma_wider(x, after + BINS * count + BINS, after + BINS * (count + j), m + 1);
                lemma_more_roundings(x, after + BINS * (count + j), m + 1, (m + j) as nat);
                lemma_more_left(
                    x + BINS * count + BINS,
                    x + BINS * (count + j),
                    after,
                    m + 1,
                );
                lemma_more_roundings(x + BINS * (count + j), after, m + 1, (m + j) as nat);
            }
        }
    }
}

proof fn lemma_more_left(x: int, more: int, y: int, m: nat)
    requires
        x <= more,
        at_least_rounded(x, y, m),
    ensures
        at_least_rounded(more, y, m),
{
    lemma_powers(m);
    lemma_mul_inequality(x, more, pow(PARTS as int, m));
}

/// Where each bar counts one, bars count as many as they are.
proof fn lemma_count_one(bars: Seq<Bar>)
    ensures
        counted(bars, |b: Bar| 1) == bars.len(),
    decreases bars.len(),
{
    if bars.len() > 0 {
        lemma_count_one(bars.drop_last());
    }
}

/// Empty bins hold nothing.
proof fn lemma_no_bins(prof: Seq<Double>, n: nat)
    requires
        n <= prof.len(),
        forall|k: int| 0 <= k < prof.len() ==> #[trigger] prof[k] == (Double { bits: 0 }),
    ensures
        held_by(prof, n) == 0,
    decreases n,
{
    double::lemma_positive(Double { bits: 0 });
    if n > 0 {
        lemma_no_bins(prof, (n - 1) as nat);
        assert(prof[n - 1] == (Double { bits: 0 }));
    }
}

proof fn lemma_bins_held(prof: Seq<Double>, n: nat)
    requires
        n <= prof.len(),
        bins_told(prof),
    ensures
        held_by(prof, n) >= 0,
    decreases n,
{
    if n > 0 {
        lemma_bins_held(prof, (n - 1) as nat);
        assert(rounding::not_below_zero(prof[n - 1]));
    }
}

// ---------------------------------------------------------------------------
// Room
// ---------------------------------------------------------------------------

/// Whether the volume of some bars is so far from the largest double, and their
/// count so far from the precision of one, that nothing overflows.
pub open spec fn with_room(bars: Seq<Bar>) -> bool {
    &&& bars.len() <= 0x4_0000_0000_0000
    &&& traded(bars) <= pow2(2095)
}

/// A bounded number of roundings does not double anything.
proof fn lemma_not_doubled(x: int, y: int, m: nat)
    requires
        2 * m <= PARTS,
        y >= 0,
        at_most_rounded(x, y, m),
    ensures
        x <= 2 * y,
{
    lemma_in_fractions(x, y, m);
    let t: int = PARTS as int;
    let d: int = t - m;
    assert(x <= 2 * y) by (nonlinear_arith)
        requires
            x * d <= y * t,
            2 * d >= t,
            t > 0,
            y >= 0,
    {
        if x > 2 * y {
            assert((2 * y + 1) * d <= x * d);
            assert((2 * y + 1) * (2 * d) >= (2 * y + 1) * t);
        }
    }
}

/// Buckets hold no more than there is.
proof fn lemma_gathered_bound(bars: Seq<Bar>, start: i64, n: nat, f: spec_fn(Bar) -> int)
    requires
        forall|i: int| 0 <= i < bars.len() ==> f(#[trigger] bars[i]) >= 0,
    ensures
        gathered(bars, start, n, f) <= counted(bars, f),
    decreases bars.len(),
{
    if bars.len() == 0 {
        lemma_none_gathered(bars, start, n, f);
    } else {
        let rest = bars.drop_last();
        assert forall|i: int| 0 <= i < rest.len() implies f(#[trigger] rest[i]) >= 0 by {
            assert(rest[i] == bars[i]);
        }
        lemma_gathered_bound(rest, start, n, f);
        lemma_gathered_one(bars, start, n, f);
        assert(f(bars[bars.len() - 1]) >= 0);
    }
}

/// The volume of a bucket with room is finite.
proof fn lemma_bucket_finite(bucket: Seq<Bar>)
    requires
        volumes_told(bucket),
        with_room(bucket),
    ensures
        profile::volume(bucket).finite(),
    decreases bucket.len(),
{
    if bucket.len() > 0 {
        let rest = bucket.drop_last();
        let b = bucket[bucket.len() - 1].v;
        assert forall|i: int| 0 <= i < rest.len() implies (#[trigger] rest[i]).v.finite()
            && rest[i].v.value() >= 0 by {
            assert(rest[i] == bucket[i]);
        }
        assert(b.finite() && b.value() >= 0);
        lemma_bucket_finite(rest);
        lemma_bucket_volume(rest);
        lemma_not_doubled(profile::volume(rest).value(), traded(rest), rest.len());
        lemma_pow2_unfold(2097);
        lemma_pow2_unfold(2096);
        rounding::lemma_sum_finite(profile::volume(rest), b);
    }
}

/// One bin holds no more than all.
proof fn lemma_one_bin(prof: Seq<Double>, k: int, n: nat)
    requires
        0 <= k < n <= prof.len(),
        bins_told(prof),
    ensures
        prof[k].value() <= held_by(prof, n),
    decreases n,
{
    assert(rounding::not_below_zero(prof[n - 1]));
    lemma_bins_held(prof, (n - 1) as nat);
    if k < n - 1 {
        lemma_one_bin(prof, k, (n - 1) as nat);
    }
}

/// A bucket more with room leaves the bins finite.
proof fn lemma_spread_finite(
    prof: Seq<Double>,
    bucket: Seq<Bar>,
    hi: Double,
    lo: Double,
    w: Double,
    before: int,
    slack: int,
    m: nat,
)
    requires
        prof.len() == BINS,
        bins_told(prof),
        bins_finite(prof),
        volumes_told(bucket),
        with_room(bucket),
        0 < bucket.len() < m,
        2 * m <= PARTS,
        0 <= before,
        0 <= slack,
        before + slack + 2 * traded(bucket) + BINS <= pow2(2097),
        at_most_rounded(2 * held_by(prof, BINS as nat), before + slack, m),
    ensures
        bins_finite(profile::spread(prof, bucket, hi, lo, w)),
{
    let next = profile::spread(prof, bucket, hi, lo, w);
    let a = profile::bin_of(profile::lowest(bucket), lo, w, 0);
    let z = profile::bin_of(profile::highest(bucket).smaller(hi), lo, w, a);
    let c = (z - a + 1) as nat;
    let share = profile::volume(bucket).quotient(Double::whole(z - a + 1));
    lemma_bucket_volume(bucket);
    lemma_bucket_finite(bucket);
    rounding::lemma_share_rounded(profile::volume(bucket), c);
    rounding::lemma_share_finite(profile::volume(bucket), c);
    lemma_shares(bucket, c, share, m);
    let x = 2 * held_by(prof, BINS as nat);
    let y = 2 * (c * share.value());
    let bound = before + slack + (2 * traded(bucket) + BINS);
    lemma_rounded_sum(x, before + slack, y, 2 * traded(bucket) + BINS, m);
    lemma_not_doubled(x + y, bound, m);
    lemma_mul_inequality(1, c as int, share.value());
    assert forall|k: int| 0 <= k < next.len() implies (#[trigger] next[k]).finite() by {
        assert(prof[k].finite());
        assert(rounding::not_below_zero(prof[k]));
        lemma_one_bin(prof, k, BINS as nat);
        rounding::lemma_sum_finite(prof[k], share);
    }
}

/// With room no bin overflows.
proof fn lemma_filled_finite(
    bars: Seq<Bar>,
    start: i64,
    hi: Double,
    lo: Double,
    w: Double,
    n: nat,
)
    requires
        volumes_told(bars),
        with_room(bars),
    ensures
        bins_finite(profile::filled(bars, start, hi, lo, w, n)),
    decreases n,
{
    let f = |b: Bar| b.v.value();
    let one = |b: Bar| 1int;
    if n > 0 {
        let k = (n - 1) as nat;
        let bucket = profile::in_bucket(bars, start, n - 1);
        let prof = profile::filled(bars, start, hi, lo, w, k);
        lemma_filled_finite(bars, start, hi, lo, w, k);
        lemma_filled(bars, start, hi, lo, w, k);
        lemma_of_session(bars, start, n - 1);
        lemma_bucket_volume(bucket);
        lemma_count_one(bucket);
        lemma_count_one(bars);
        lemma_gathered_bound(bars, start, n, f);
        lemma_gathered_bound(bars, start, n, one);
        lemma_gathered_nonnegative(bars, start, k);
        let all = 2 * gathered(bars, start, k, f);
        let count = gathered(bars, start, k, one);
        if bucket.len() > 0 {
            lemma_pow2_unfold(2097);
            lemma_pow2_unfold(2096);
            lemma2_to64_rest();
            double::lemma_pow2_order(64, 2095);
            lemma_spread_finite(
                prof,
                bucket,
                hi,
                lo,
                w,
                all,
                BINS * count,
                (bars.len() + 1 + count) as nat,
            );
        }
    }
}

proof fn lemma_gathered_nonnegative(bars: Seq<Bar>, start: i64, n: nat)
    requires
        volumes_told(bars),
    ensures
        gathered(bars, start, n, |b: Bar| b.v.value()) >= 0,
    decreases n,
{
    if n > 0 {
        lemma_gathered_nonnegative(bars, start, (n - 1) as nat);
        lemma_of_session(bars, start, n - 1);
        lemma_bucket_volume(profile::in_bucket(bars, start, n - 1));
    }
}

// ---------------------------------------------------------------------------
// Laws
// ---------------------------------------------------------------------------

/// A profile keeps the volume. Where the volumes of the bars are finite numbers
/// that are not below zero, no bin is below zero. Where no bin overflows, the
/// sum `S` of all bins lies close to the volume `V` of all bars: with `N` bars,
/// `V * (1 - 2^-53)^(2N+1) - 24 N <= S <= (V + 24 N) * (1 + 2^-53)^(2N+1)`, in
/// units of the smallest positive double. The powers bound what the roundings of
/// the sums and shares come to, and the `24 N` units what is lost in shares that
/// are too small for full precision.
pub proof fn law_profile_keeps_the_volume(bars: Seq<Bar>, start: i64)
    requires
        volumes_told(bars),
        profile::profile_of(bars, start) is Some,
    ensures
        ({
            let prof = profile::profile_of(bars, start)->0.prof;
            let n = bars.len();
            &&& prof.len() == BINS
            &&& forall|k: int|
                0 <= k < BINS ==> !(#[trigger] prof[k]).nan() && prof[k].value() >= 0
            &&& bins_finite(prof) ==> {
                &&& at_most_rounded(
                    2 * held_by(prof, BINS as nat),
                    2 * traded(bars) + 48 * n,
                    2 * n + 1,
                )
                &&& at_least_rounded(
                    2 * held_by(prof, BINS as nat) + 48 * n,
                    2 * traded(bars),
                    2 * n + 1,
                )
            }
        }),
{
    let p = profile::profile_of(bars, start)->0;
    let used = profile::buckets_used(bars, start);
    profile::lemma_buckets_used(bars, start);
    lemma_filled(bars, start, p.hi, p.lo, p.w, used);
    lemma_all_gathered(bars, start, used, |b: Bar| b.v.value());
    lemma_all_gathered(bars, start, used, |b: Bar| 1);
    lemma_count_one(bars);
    assert forall|k: int| 0 <= k < BINS implies !(#[trigger] p.prof[k]).nan() && p.prof[k].value()
        >= 0 by {
        assert(rounding::not_below_zero(p.prof[k]));
    }
}

/// The same in plain fractions: of `N` bars with a volume `V`, the sum `S` of all
/// bins lies within `2N + 1` parts in `2^53` of the volume, but for `24 N` units of
/// the smallest positive double. No bin overflows where the volume is below
/// `2^1021` and there are at most `2^50` bars.
pub proof fn law_profile_volume_error(bars: Seq<Bar>, start: i64)
    requires
        volumes_told(bars),
        with_room(bars),
        profile::profile_of(bars, start) is Some,
    ensures
        ({
            let prof = profile::profile_of(bars, start)->0.prof;
            let held = held_by(prof, BINS as nat);
            let n = bars.len();
            &&& bins_finite(prof)
            &&& held * (PARTS - (2 * n + 1)) <= (traded(bars) + 24 * n) * PARTS
            &&& (held + 24 * n) * PARTS >= traded(bars) * (PARTS - (2 * n + 1))
        }),
{
    let p = profile::profile_of(bars, start)->0;
    let n = bars.len();
    let m = (2 * n + 1) as nat;
    let held = held_by(p.prof, BINS as nat);
    law_profile_keeps_the_volume(bars, start);
    lemma_filled_finite(bars, start, p.hi, p.lo, p.w, profile::buckets_used(bars, start));
    lemma_bucket_volume(bars);
    lemma_in_fractions(2 * held, 2 * traded(bars) + 48 * n, m);
    lemma_in_fractions(2 * held + 48 * n, 2 * traded(bars), m);
    let d: int = PARTS - m;
    lemma_mul_is_associative(2, held, d);
    lemma_mul_is_associative(2, traded(bars), d);
}

} // verus!
