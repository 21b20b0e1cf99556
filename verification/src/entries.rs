//! What the trades of the engine are worth: where stop and target lie, and what
//! a trade gains.

use crate::double;
use crate::double::Double;
use crate::engine;
use crate::engine::{CfgView, EventView, PosView, StrategyView, TradeView};
use crate::laws;
use crate::profile::Bar;
use crate::rounding;
use crate::rounding::PARTS;
use vstd::arithmetic::power2::*;
use vstd::prelude::*;

verus! {

// ---------------------------------------------------------------------------
// Entries
// ---------------------------------------------------------------------------

/// Where a trade at `price` has its stop and its target. The stop distance is
/// the average true range as a share of the price, held between 0.0005 and
/// 0.005. The stop lies that share below the entry of a long trade and above
/// that of a short one. The target lies `rr` times that share on the other side.
pub proof fn law_entry_levels(s: StrategyView, b: Bar, price: Double, atr: Double)
    requires
        s.atr == Some(atr),
    ensures
        ({
            let slp = atr.quotient(price).clamped(
                Double::ratio(5, 10_000),
                Double::ratio(5, 1_000),
            );
            let unit = Double::whole(1);
            let long = s.entry(1, b, price);
            let short = s.entry((-1) as i8, b, price);
            &&& long.side == 1 && short.side == -1
            &&& long.entry == price && short.entry == price
            &&& long.slp == slp && short.slp == slp
            &&& long.rr == s.cfg.rr && short.rr == s.cfg.rr
            &&& long.sl0 == price.product(unit.difference(slp)) && long.sl == long.sl0
            &&& short.sl0 == price.product(unit.sum(slp)) && short.sl == short.sl0
            &&& long.tp == price.product(unit.sum(slp.product(s.cfg.rr)))
            &&& short.tp == price.product(unit.difference(slp.product(s.cfg.rr)))
            &&& long.entry_ts == b.ts && short.entry_ts == b.ts
        }),
{
}

/// A number between the bounds of a stop distance is positive and finite.
proof fn lemma_share(slp: Double)
    requires
        Double::ratio(5, 10_000).at_most(slp),
        slp.at_most(Double::ratio(5, 1_000)),
    ensures
        !slp.negative(),
        !slp.zero(),
        slp.finite(),
{
    double::lemma_positive_ratio(5, 10_000);
    double::lemma_ratio_order(5, 1_000, 1, 1);
    double::lemma_one();
    double::lemma_between(Double::ratio(5, 10_000), slp, Double::whole(1));
}

/// The larger the reward that is asked for, the farther the target: two engines
/// that differ in nothing but `rr` put the target of the one with the larger
/// `rr` no nearer. The stop is the same.
pub proof fn law_larger_reward_is_farther(
    s: StrategyView,
    more: Double,
    b: Bar,
    price: Double,
)
    requires
        price.finite(),
        !price.negative(),
        !price.zero(),
        s.atr is Some,
        !s.atr->0.quotient(price).nan(),
        s.cfg.rr.at_most(more),
        !s.cfg.rr.negative(),
        !more.negative(),
    ensures
        ({
            let t = StrategyView { cfg: CfgView { rr: more, ..s.cfg }, ..s };
            &&& s.entry(1, b, price).sl0 == t.entry(1, b, price).sl0
            &&& s.entry((-1) as i8, b, price).sl0 == t.entry((-1) as i8, b, price).sl0
            &&& s.entry(1, b, price).tp.at_most(t.entry(1, b, price).tp)
            &&& s.entry((-1) as i8, b, price).slp.product(more).at_most(Double::whole(1))
                ==> t.entry((-1) as i8, b, price).tp.at_most(s.entry((-1) as i8, b, price).tp)
        }),
{
    let slp = s.entry(1, b, price).slp;
    engine::lemma_stop_bounds();
    lemma_share(slp);
    let unit = Double::whole(1);
    double::lemma_one();
    let near = slp.product(s.cfg.rr);
    let far = slp.product(more);
    double::lemma_product_order(s.cfg.rr, more, slp);
    double::lemma_product_commutes(slp, s.cfg.rr);
    double::lemma_product_commutes(slp, more);
    // long
    double::lemma_sum_order(unit, near, far);
    double::lemma_nonnegative(near);
    double::lemma_nonnegative(far);
    double::lemma_sum_not_negative_zero(unit, near);
    double::lemma_sum_not_negative_zero(unit, far);
    let zero = Double { bits: 0 };
    double::lemma_nonnegative(zero);
    double::lemma_sum_order(unit, zero, near);
    double::lemma_sum_zero(unit, zero);
    double::lemma_product_order(unit.sum(near), unit.sum(far), price);
    double::lemma_product_commutes(unit.sum(near), price);
    double::lemma_product_commutes(unit.sum(far), price);
    // short
    if far.at_most(unit) {
        double::lemma_opposite_order(near, far);
        double::lemma_opposite_order(far, unit);
        double::lemma_sum_order(unit, far.opposite(), near.opposite());
        double::lemma_sum_order(unit, unit.opposite(), far.opposite());
        double::lemma_sum_opposite(unit);
        double::lemma_opposite_order(near, near);
        double::lemma_sum_not_negative_zero(unit, near.opposite());
        double::lemma_sum_not_negative_zero(unit, far.opposite());
        double::lemma_product_order(unit.difference(far), unit.difference(near), price);
        double::lemma_product_commutes(unit.difference(near), price);
        double::lemma_product_commutes(unit.difference(far), price);
    }
}

/// A product with a bounded factor is bounded.
proof fn lemma_scaled(c: int, e: int, t: int, bound: int)
    requires
        c >= 0,
        e * t <= bound,
        -e * t <= bound,
    ensures
        (c * e) * t <= c * bound,
        -(c * e) * t <= c * bound,
{
    assert((c * e) * t <= c * bound && -(c * e) * t <= c * bound) by (nonlinear_arith)
        requires
            c >= 0,
            e * t <= bound,
            -e * t <= bound,
    {
        assert(c * (e * t) <= c * bound);
        assert(c * (-e * t) <= c * bound);
    }
}

/// What the roundings of stop and target come to, in units. Here `g` stands for
/// the share of the target, `h` and `k` for what the price is multiplied by.
#[verifier::spinoff_prover]
proof fn lemma_levels(
    p: int,
    r: int,
    s: int,
    u: int,
    t: int,
    g: int,
    h: int,
    tp: int,
    k: int,
    sl: int,
    way: int,
)
    requires
        way == 1 || way == -1,
        0 < t <= u,
        t <= p,
        0 <= r,
        0 <= s <= u,
        0 <= g <= 2 * u,
        0 <= h <= 3 * u,
        0 <= k <= 3 * u,
        s * r <= u * u,
        (g * u - s * r) * (2 * t) <= 2 * (s * r) + u * t,
        (s * r - g * u) * (2 * t) <= 2 * (s * r) + u * t,
        (h - (u + way * g)) * t <= 3 * u,
        ((u + way * g) - h) * t <= 3 * u,
        (tp * u - p * h) * (2 * t) <= 2 * (p * h) + u * t,
        (p * h - tp * u) * (2 * t) <= 2 * (p * h) + u * t,
        (k - (u - way * s)) * t <= 2 * u,
        ((u - way * s) - k) * t <= 2 * u,
        (sl * u - p * k) * (2 * t) <= 2 * (p * k) + u * t,
        (p * k - sl * u) * (2 * t) <= 2 * (p * k) + u * t,
    ensures
        ((tp - p) * u - r * (p - sl)) * (2 * t) <= p * (16 * u + 11 * r),
        (r * (p - sl) - (tp - p) * u) * (2 * t) <= p * (16 * u + 11 * r),
{
    let e_tp = tp * u - p * h;
    let e_h = h - (u + way * g);
    let e_g = g * u - s * r;
    let e_k = (u - way * s) - k;
    let e_sl = sl * u - p * k;
    let d = (tp - p) * u - r * (p - sl);
    let q = 2 * t;
    let pu = p * u;
    let puu = pu * u;
    let rpu = r * pu;
    assert(pu >= 0 && puu >= 0 && rpu >= 0 && u * u >= 0) by (nonlinear_arith)
        requires
            p > 0,
            u > 0,
            r >= 0,
            pu == p * u,
            puu == pu * u,
            rpu == r * pu,
    ;
    // the share of the way that each rounding has
    assert(e_tp * q <= 7 * pu && -e_tp * q <= 7 * pu) by (nonlinear_arith)
        requires
            e_tp * q <= 2 * (p * h) + u * t,
            -e_tp * q <= 2 * (p * h) + u * t,
            h <= 3 * u,
            t <= p,
            p > 0,
            u > 0,
            pu == p * u,
    {
        assert(p * h <= p * (3 * u));
        assert(u * t <= u * p);
    }
    assert(e_sl * q <= 7 * pu && -e_sl * q <= 7 * pu) by (nonlinear_arith)
        requires
            e_sl * q <= 2 * (p * k) + u * t,
            -e_sl * q <= 2 * (p * k) + u * t,
            k <= 3 * u,
            t <= p,
            p > 0,
            u > 0,
            pu == p * u,
    {
        assert(p * k <= p * (3 * u));
        assert(u * t <= u * p);
    }
    let uu = u * u;
    assert(e_g * q <= 3 * uu && -e_g * q <= 3 * uu) by (nonlinear_arith)
        requires
            e_g * q <= 2 * (s * r) + u * t,
            -e_g * q <= 2 * (s * r) + u * t,
            s * r <= uu,
            t <= u,
            u > 0,
            uu == u * u,
    {
        assert(u * t <= u * u);
    }
    assert(e_h * q <= 6 * u && -e_h * q <= 6 * u) by (nonlinear_arith)
        requires
            e_h * t <= 3 * u,
            -e_h * t <= 3 * u,
            q == 2 * t,
    ;
    assert(e_k * q <= 4 * u && -e_k * q <= 4 * u) by (nonlinear_arith)
        requires
            e_k * t <= 2 * u,
            -e_k * t <= 2 * u,
            q == 2 * t,
    ;
    lemma_scaled(u, e_tp, q, 7 * pu);
    lemma_scaled(pu, e_h, q, 6 * u);
    lemma_scaled(p, e_g, q, 3 * uu);
    let rp = r * p;
    assert(rp >= 0) by (nonlinear_arith)
        requires
            r >= 0,
            p > 0,
            rp == r * p,
    ;
    lemma_scaled(rp, e_k, q, 4 * u);
    lemma_scaled(r, e_sl, q, 7 * pu);
    let a1 = u * e_tp;
    let a2 = pu * e_h;
    let a3 = p * e_g;
    let a4 = rp * e_k;
    let a5 = r * e_sl;
    assert(u * (7 * pu) == 7 * puu && pu * (6 * u) == 6 * puu && p * (3 * uu) == 3 * puu && rp * (4
        * u) == 4 * rpu && r * (7 * pu) == 7 * rpu) by (nonlinear_arith)
        requires
            pu == p * u,
            puu == pu * u,
            uu == u * u,
            rp == r * p,
            rpu == r * pu,
    ;
    assert(d * u == a1 + a2 + way * a3 - a4 + a5) by {
        lemma_split(p, r, s, u, g, h, tp, k, sl, way);
    }
    let all = d * u;
    assert(all * q <= 16 * puu + 11 * rpu && -all * q <= 16 * puu + 11 * rpu) by (nonlinear_arith)
        requires
            all == a1 + a2 + way * a3 - a4 + a5,
            way == 1 || way == -1,
            a1 * q <= 7 * puu && -a1 * q <= 7 * puu,
            a2 * q <= 6 * puu && -a2 * q <= 6 * puu,
            a3 * q <= 3 * puu && -a3 * q <= 3 * puu,
            a4 * q <= 4 * rpu && -a4 * q <= 4 * rpu,
            a5 * q <= 7 * rpu && -a5 * q <= 7 * rpu,
    ;
    let bound = p * (16 * u + 11 * r);
    assert(d * q <= bound && -d * q <= bound) by (nonlinear_arith)
        requires
            (d * u) * q <= 16 * puu + 11 * rpu,
            -(d * u) * q <= 16 * puu + 11 * rpu,
            pu == p * u,
            puu == pu * u,
            rpu == r * pu,
            bound == p * (16 * u + 11 * r),
            u > 0,
    {
        assert(16 * puu + 11 * rpu == bound * u);
        assert((d * q) * u <= bound * u);
        assert((-d * q) * u <= bound * u);
    }
}

/// The difference between the two distances, split by roundings.
proof fn lemma_split(
    p: int,
    r: int,
    s: int,
    u: int,
    g: int,
    h: int,
    tp: int,
    k: int,
    sl: int,
    way: int,
)
    requires
        way == 1 || way == -1,
    ensures
        ((tp - p) * u - r * (p - sl)) * u == u * (tp * u - p * h) + (p * u) * (h - (u + way * g))
            + way * (p * (g * u - s * r)) - (r * p) * ((u - way * s) - k) + r * (sl * u - p * k),
{
    let w = way;
    assert(((tp - p) * u - r * (p - sl)) * u == u * (tp * u) - u * (p * u) - u * (r * p) + u * (r
        * sl)) by (nonlinear_arith);
    assert(u * (tp * u - p * h) == u * (tp * u) - u * (p * h)) by (nonlinear_arith);
    assert((p * u) * (h - (u + w * g)) == u * (p * h) - u * (p * u) - u * (p * (w * g)))
        by (nonlinear_arith);
    assert(w * (p * (g * u - s * r)) == u * (p * (w * g)) - p * (w * (s * r))) by (nonlinear_arith);
    assert((r * p) * ((u - w * s) - k) == u * (r * p) - p * (w * (s * r)) - (r * p) * k)
        by (nonlinear_arith);
    assert(r * (sl * u - p * k) == u * (r * sl) - (r * p) * k) by (nonlinear_arith);
}

/// The target lies as many stop distances away as `rr` says. Of a trade on either
/// side, what lies between entry and target is `rr` times what lies between the
/// first stop and the entry, up to the roundings: the two differ by at most
/// `(8 + 6 * rr) * 2^-53` of the price. (All values are in units, so that `rr`
/// stands for `rr.value() / one()`.)
pub proof fn law_target_is_rr_stops_away(s: StrategyView, b: Bar, price: Double, side: i8)
    requires
        side == 1 || side == -1,
        price.finite(),
        PARTS <= price.value() <= pow2(2095),
        s.atr is Some,
        !s.atr->0.quotient(price).nan(),
        s.cfg.rr.finite(),
        s.cfg.rr.value() >= 0,
        s.entry(side, b, price).slp.value() * s.cfg.rr.value() <= double::one() * double::one(),
    ensures
        ({
            let p = s.entry(side, b, price);
            let rr = s.cfg.rr.value();
            let reward = (p.tp.value() - p.entry.value()) * double::one();
            let risk = p.entry.value() - p.sl0.value();
            &&& p.tp.finite()
            &&& p.sl0.finite()
            &&& (reward - rr * risk) * (2 * PARTS) <= price.value() * (16 * double::one() + 11 * rr)
            &&& (rr * risk - reward) * (2 * PARTS) <= price.value() * (16 * double::one() + 11 * rr)
        }),
{
    let u = double::one();
    let t: int = PARTS as int;
    let x = s.entry(side, b, price);
    let slp = x.slp;
    let unit = Double::whole(1);
    engine::lemma_stop_bounds();
    lemma_share(slp);
    double::lemma_one();
    double::lemma_nonnegative(slp);
    double::lemma_ratio_order(5, 1_000, 1, 1);
    lemma2_to64();
    lemma2_to64_rest();
    double::lemma_pow2_order(53, 1074);
    double::lemma_pow2_order(1074, 2095);
    lemma_pow2_unfold(2097);
    lemma_pow2_unfold(2096);
    assert(unit.finite() && unit.value() == u);
    assert(0 <= slp.value() <= u);
    let sr = slp.value() * s.cfg.rr.value();
    rounding::lemma_product_rounded(slp, s.cfg.rr, u);
    let g = slp.product(s.cfg.rr);
    lemma_not_above_one(slp, s.cfg.rr);
    let (h, k, way): (Double, Double, int) = if side == 1 {
        (unit.sum(g), unit.difference(slp), 1)
    } else {
        (unit.difference(g), unit.sum(slp), -1)
    };
    assert(rounding::not_below_zero(unit) && rounding::not_below_zero(g)
        && rounding::not_below_zero(slp));
    if side == 1 {
        rounding::lemma_sum_finite(unit, g);
        rounding::lemma_sum_rounded(unit, g);
        rounding::lemma_difference_rounded(unit, slp);
    } else {
        rounding::lemma_difference_rounded(unit, g);
        rounding::lemma_sum_finite(unit, slp);
        rounding::lemma_sum_rounded(unit, slp);
    }
    assert(way == 1 ==> way * g.value() == g.value() && way * slp.value() == slp.value());
    assert(way == -1 ==> way * g.value() == -g.value() && way * slp.value() == -slp.value());
    assert(0 <= slp.value() <= u && 0 <= g.value() <= u);
    lemma_near(h.value(), u + way * g.value(), u as int, t);
    lemma_near(k.value(), u - way * slp.value(), u as int, t);
    lemma_reach(price.value(), h.value(), u as int);
    lemma_reach(price.value(), k.value(), u as int);
    rounding::lemma_product_rounded(price, h, (3 * price.value()) as nat);
    rounding::lemma_product_rounded(price, k, (3 * price.value()) as nat);
    lemma_levels(
        price.value(),
        s.cfg.rr.value(),
        slp.value(),
        u as int,
        t,
        g.value(),
        h.value(),
        x.tp.value(),
        k.value(),
        x.sl0.value(),
        way,
    );
}

/// A product that is at most one rounds to one or less.
proof fn lemma_not_above_one(a: Double, b: Double)
    requires
        a.finite(),
        b.finite(),
        a.value() >= 0,
        b.value() >= 0,
        a.value() * b.value() <= double::one() * double::one(),
        a.product(b).value() >= 0,
    ensures
        a.product(b).value() <= double::one(),
{
    let u = double::one();
    let x = double::units(a.magnitude());
    let y = double::units(b.magnitude());
    lemma_pow2_pos(1074);
    double::lemma_one();
    double::lemma_value_sign(a);
    double::lemma_value_sign(b);
    double::lemma_units_order(a.magnitude(), 0);
    double::lemma_units_order(b.magnitude(), 0);
    assert(a.value() == x && b.value() == y);
    double::lemma_round_exact(0x3FF0_0000_0000_0000);
    assert((x * y) * 1 <= u * u);
    double::lemma_round_monotone(x * y, u, u, 1);
    let m = double::round_ratio(x * y, u);
    double::lemma_signed(a.negative() != b.negative(), m);
    double::lemma_units_order(0x3FF0_0000_0000_0000, m);
}

/// A number that was rounded once lies close to the exact one.
proof fn lemma_near(h: int, exact: int, u: int, t: int)
    requires
        2 <= t,
        0 <= exact <= 2 * u,
        (h - exact) * t <= exact,
        (exact - h) * t <= exact,
    ensures
        (h - exact) * t <= 2 * u,
        (exact - h) * t <= 2 * u,
        h <= 3 * u,
{
    assert(h <= 3 * u) by (nonlinear_arith)
        requires
            2 <= t,
            0 <= exact <= 2 * u,
            (h - exact) * t <= exact,
    {
        if h > exact {
            assert((h - exact) * 2 <= (h - exact) * t);
        }
    }
}

proof fn lemma_reach(p: int, h: int, u: int)
    requires
        p >= 0,
        0 <= h <= 3 * u,
    ensures
        p * h <= (3 * p) * u,
{
    assert(p * h <= (3 * p) * u) by (nonlinear_arith)
        requires
            p >= 0,
            0 <= h <= 3 * u,
    ;
}

// ---------------------------------------------------------------------------
// What a trade gains
// ---------------------------------------------------------------------------

/// What closing a position makes of it: a trade at the fill, with the entry, the
/// first stop and the target that the position had. Its gain is the share of the
/// entry price by which a long trade was filled above its entry, or a short one
/// below it, in percent, and as a multiple of what the first stop would have
/// lost.
pub proof fn law_trade_gain(p: PosView, kind: Seq<char>, fill: Double, ts: i64)
    ensures
        ({
            let t = p.closed(kind, fill, ts);
            let unit = Double::whole(1);
            let hundred = Double::whole(100);
            &&& t.entry == p.entry && t.exit == fill && t.exit_type == kind && t.exit_ts == ts
            &&& t.sl == p.sl0 && t.tp == p.tp && t.slp == p.slp && t.rr == p.rr
            &&& t.side == p.side && t.session == p.session && t.entry_ts == p.entry_ts
            &&& t.bars_held == p.bars_held && t.trail_a == p.trail_a
            &&& p.side == 1 ==> t.pct == fill.quotient(p.entry).difference(unit).product(hundred)
            &&& p.side == -1 ==> t.pct == unit.difference(fill.quotient(p.entry)).product(hundred)
            &&& t.r == t.pct.quotient(p.slp.product(hundred))
        }),
{
}

/// A fill at the entry gains nothing, whichever side.
pub proof fn law_no_move_no_gain(p: PosView, kind: Seq<char>, ts: i64)
    requires
        p.entry.finite(),
        !p.entry.negative(),
        !p.entry.zero(),
    ensures
        p.closed(kind, p.entry, ts).pct.value() == 0,
{
    let unit = Double::whole(1);
    let e = p.entry;
    let u = double::one();
    let n = double::units(e.magnitude());
    double::lemma_one();
    double::lemma_units_order(e.magnitude(), 0);
    lemma_pow2_pos(1074);
    assert((n * u) * 1 == u * n) by (nonlinear_arith);
    double::lemma_round_same(n * u, n, u, 1);
    double::lemma_round_exact(0x3FF0_0000_0000_0000);
    double::lemma_signed(false, 0x3FF0_0000_0000_0000);
    assert(e.quotient(e) == unit);
    double::lemma_sum_opposite(unit);
    lemma_zero_product(Double { bits: 0 }, Double::whole(100));
}

/// Nothing times a finite number is nothing.
proof fn lemma_zero_product(z: Double, a: Double)
    requires
        z == (Double { bits: 0 }),
        a == Double::whole(100),
    ensures
        z.product(a).value() == 0,
{
    let u = double::one();
    lemma_pow2_pos(1074);
    lemma2_to64();
    rounding::lemma_small_whole(100);
    double::lemma_round_exact(0);
    double::lemma_round_same(0, u, 0, 1);
    double::lemma_units_order(0, 0);
    assert(double::units(0) * double::units(a.magnitude()) == 0);
    double::lemma_signed(a.negative(), 0);
}

// ---------------------------------------------------------------------------
// Ranges
// ---------------------------------------------------------------------------

/// The true range of a bar is the largest of three distances: from its low to its
/// high, and from the close before to either. None of them exceeds it, and it is
/// one of them. The first bar has only the first.
pub proof fn law_true_range_is_the_largest(prev: Double, b: Bar)
    requires
        !b.h.difference(b.l).nan(),
        !b.h.difference(prev).nan(),
        !b.l.difference(prev).nan(),
    ensures
        ({
            let tr = engine::true_range(Some(prev), b);
            let own = b.h.difference(b.l);
            let up = b.h.difference(prev).absolute();
            let down = b.l.difference(prev).absolute();
            &&& own.at_most(tr) && up.at_most(tr) && down.at_most(tr)
            &&& tr == own || tr == up || tr == down
            &&& engine::true_range(None, b) == own
        }),
{
}

/// The average true range is smoothed over fourteen bars: a new range counts one
/// part, and what was before thirteen. The first range stands alone.
pub proof fn law_average_over_fourteen(before: Double, tr: Double)
    ensures
        engine::next_atr(None, tr) == tr,
        engine::next_atr(Some(before), tr) == before.product(
            Double::whole(14).difference(Double::whole(1)),
        ).sum(tr).quotient(Double::whole(14)),
{
}

/// A bar more leaves its own close as the one before, and its range in the
/// average, whatever the day.
pub proof fn law_bar_is_taken(s: StrategyView, b: Bar)
    requires
        b.ts > s.last_bar_ts,
    ensures
        ({
            let t = s.step(b).0;
            &&& t.prev_c == Some(b.c)
            &&& t.last_bar_ts == b.ts
            &&& t.bars == s.bars.push(b)
            &&& t.atr == Some(engine::next_atr(s.atr, engine::true_range(s.prev_c, b)))
        }),
{
    let s0 = s.taken(b);
    if engine::trading_day(b.ts as int) {
        let s1 = s0.in_session(b).0;
        let s2 = StrategyView { session_bars: s1.session_bars.push(b), eos_done: false, ..s1 };
        lemma_range_stays(s2, b);
        assert(s0.session_step(b).0 == s2.traded(b).0) by {
            reveal(StrategyView::session_step);
        }
    }
}

/// Seeing to position and entry leaves history and range alone.
proof fn lemma_range_stays(s: StrategyView, b: Bar)
    ensures
        ({
            let t = s.traded(b).0;
            &&& t.prev_c == s.prev_c
            &&& t.last_bar_ts == s.last_bar_ts
            &&& t.bars == s.bars
            &&& t.atr == s.atr
        }),
{
}

// ---------------------------------------------------------------------------
// When a trade is entered
// ---------------------------------------------------------------------------

/// A session that opens at the point of control of the session before or above
/// it is long; one that opens below it is short; without such a point there is no
/// direction.
pub proof fn law_direction_of_a_session(s: StrategyView, b: Bar)
    requires
        s.active_sd is Some,
        s.active_sd != Some(engine::date_key(b.ts as int)),
    ensures
        ({
            let t = s.in_session(b).0;
            &&& t.open0 == b.o
            &&& t.active_sd == Some(engine::date_key(b.ts as int))
            &&& t.session_bars.len() == 0
            &&& !t.session_traded
            &&& t.prev_bars == s.session_bars
            &&& match t.prev_poc {
                None => t.bias is None,
                Some(poc) => if poc.at_most(b.o) {
                    t.bias == Some(1i8)
                } else {
                    t.bias == Some((-1) as i8)
                },
            }
        }),
{
}

/// A trade is entered exactly where none is open, the session is not traded yet,
/// and the bar comes back to the point of control of the session before: down to
/// it in a long session, up to it in a short one. The hour after midnight is left
/// out where the settings say so.
pub proof fn law_when_a_trade_is_entered(s: StrategyView, b: Bar)
    requires
        s.bias matches Some(x) ==> x == 1 || x == -1,
    ensures
        ({
            let due = {
                &&& s.pos is None
                &&& !s.session_traded
                &&& s.prev_poc is Some
                &&& s.bias is Some
                &&& !(s.cfg.skip_hour0 && 0 <= b.ts as int % 86_400 < 3_600)
                &&& s.bias == Some(1i8) ==> b.l.at_most(s.prev_poc->0)
                &&& s.bias == Some((-1) as i8) ==> s.prev_poc->0.at_most(b.h)
            };
            s.trigger(b) == if due {
                s.bias
            } else {
                None
            }
        }),
{
}

/// What is told of an entry is what the position holds.
pub proof fn law_entry_is_told_as_it_is(s: StrategyView, side: i8, b: Bar, price: Double)
    ensures
        ({
            let t = s.entered(side, b, price);
            &&& t.pos matches Some(p) && s.open_event(side, b, price) == (EventView::Open {
                side: p.side,
                session: p.session,
                entry: p.entry,
                sl: p.sl,
                tp: p.tp,
                slp: p.slp,
                rr: p.rr,
                entry_ts: p.entry_ts as int,
                entry_hour: (b.ts as int % 86_400) / 3_600,
                session_bars_at_entry: s.session_bars.len(),
                last_close: b.c,
            })
            &&& t.pos->0.session == s.active_sd->0
            &&& t.pos->0.bars_held == 0
            &&& t.pos->0.runx == price
            &&& t.pos->0.trail_a == (Double { bits: 0 })
            &&& t.session_traded
            &&& t.trades == s.trades
        }),
{
}

// ---------------------------------------------------------------------------
// How a position is managed
// ---------------------------------------------------------------------------

/// Where the stop is not to be drawn along, it never moves, and nothing is told
/// of it.
pub proof fn law_no_trailing_unless_asked(s: StrategyView, b: Bar)
    requires
        s.pos is Some,
        !s.cfg.trail_on,
    ensures
        s.managed(b).0.pos matches Some(p) ==> p.sl == s.pos->0.sl && p.trail_a
            == s.pos->0.trail_a,
        forall|i: int|
            0 <= i < s.managed(b).1.len() ==> !(#[trigger] s.managed(b).1[i] is Trail),
{
}

/// A rung that is worth `a` puts the stop `a` stop distances from the entry, on
/// the gaining side.
pub proof fn law_stop_of_a_rung(p: PosView, a: Double)
    ensures
        p.side == 1 ==> p.stop_for(a) == p.entry.sum(a.product(p.slp).product(p.entry)),
        p.side == -1 ==> p.stop_for(a) == p.entry.difference(a.product(p.slp).product(p.entry)),
{
}

/// A rung at the share `x` of the way is reached once the best price is at or
/// beyond that share of the way from entry to target.
pub proof fn law_rung_is_reached_on_the_way(p: PosView, x: Double)
    ensures
        ({
            let level = p.entry.sum(p.tp.difference(p.entry).product(x));
            &&& p.side == 1 ==> engine::reached(p, engine::milestone(p, x)) == level.at_most(p.runx)
            &&& p.side == -1 ==> engine::reached(p, engine::milestone(p, x)) == p.runx.at_most(level)
        }),
{
}

/// The best price of a position is never bettered by a bar that it has seen.
pub proof fn law_best_price_is_the_best(p: PosView, b: Bar)
    requires
        !p.runx.nan(),
        !b.h.nan(),
        !b.l.nan(),
    ensures
        p.side == 1 ==> b.h.at_most(p.run(b).runx) && p.runx.at_most(p.run(b).runx) && (p.run(
            b,
        ).runx == b.h || p.run(b).runx == p.runx),
        p.side == -1 ==> p.run(b).runx.at_most(b.l) && p.run(b).runx.at_most(p.runx) && (p.run(
            b,
        ).runx == b.l || p.run(b).runx == p.runx),
        p.bars_held < i64::MAX ==> p.run(b).bars_held == p.bars_held + 1,
{
}

/// Where a bar ends a trade by its stop, the stop is filled; where by its target,
/// the target is. A long trade's stop is taken from above and its target from
/// below; a short one's the other way round.
pub proof fn law_exits_fill_at_their_level(s: StrategyView, b: Bar, p: PosView)
    requires
        s.pos is Some,
        s.cfg.sl_touch,
        !s.cfg.trail_on,
        p == s.pos->0.run(b),
        p.side == 1 || p.side == -1,
    ensures
        ({
            let stop = if p.side == 1 {
                b.l.at_most(p.sl)
            } else {
                p.sl.at_most(b.h)
            };
            let target = if p.side == 1 {
                p.tp.at_most(b.h)
            } else {
                b.l.at_most(p.tp)
            };
            let (t, told) = s.managed(b);
            if stop {
                &&& t.trades == s.trades.push(p.closed("SL"@, p.sl, b.ts))
                &&& told == seq![EventView::Close(p.closed("SL"@, p.sl, b.ts))]
                &&& t.pos is None
            } else if target {
                &&& t.trades == s.trades.push(p.closed("TP"@, p.tp, b.ts))
                &&& told == seq![EventView::Close(p.closed("TP"@, p.tp, b.ts))]
                &&& t.pos is None
            } else {
                &&& t.trades == s.trades
                &&& told == Seq::<EventView>::empty()
                &&& t.pos == Some(p)
            }
        }),
{
    let (t, told) = s.managed(b);
    if p.stopped(b, true) || p.targeted(b, true) {
        assert(told =~= seq![told[0]]);
    }
}

// ---------------------------------------------------------------------------
// Over a whole history
// ---------------------------------------------------------------------------

/// Whether stop and target lie where the entry put them.
pub open spec fn levelled(
    rr: Double,
    side: i8,
    entry: Double,
    slp: Double,
    sl: Double,
    tp: Double,
) -> bool {
    let unit = Double::whole(1);
    let goal = slp.product(rr);
    ||| side == 1 && sl == entry.product(unit.difference(slp)) && tp == entry.product(
        unit.sum(goal),
    )
    ||| side == -1 && sl == entry.product(unit.sum(slp)) && tp == entry.product(
        unit.difference(goal),
    )
}

/// Whether a trade is what its position came to.
pub open spec fn settled(rr: Double, t: TradeView) -> bool {
    let unit = Double::whole(1);
    let share = t.exit.quotient(t.entry);
    &&& t.rr == rr
    &&& levelled(rr, t.side, t.entry, t.slp, t.sl, t.tp)
    &&& t.pct == (if t.side == 1 {
        share.difference(unit)
    } else {
        unit.difference(share)
    }).product(Double::whole(100))
    &&& t.r == t.pct.quotient(t.slp.product(Double::whole(100)))
    &&& t.exit_type == "TP"@ ==> t.exit == t.tp
    &&& t.entry_ts <= t.exit_ts
}

/// Whether the open position and all trades are so.
pub open spec fn sound(s: StrategyView) -> bool {
    &&& s.pos matches Some(p) ==> {
        &&& p.rr == s.cfg.rr
        &&& levelled(s.cfg.rr, p.side, p.entry, p.slp, p.sl0, p.tp)
        &&& p.entry_ts <= s.last_bar_ts
    }
    &&& forall|i: int| 0 <= i < s.trades.len() ==> settled(s.cfg.rr, #[trigger] s.trades[i])
    &&& s.bias matches Some(x) ==> x == 1 || x == -1
}

proof fn lemma_exit_names()
    ensures
        "SL"@ != "TP"@,
        "EOS"@ != "TP"@,
        "MANUAL"@ != "TP"@,
{
    reveal_strlit("SL");
    reveal_strlit("TP");
    reveal_strlit("EOS");
    reveal_strlit("MANUAL");
    assert("SL"@[0] != "TP"@[0]);
    assert("EOS"@[0] != "TP"@[0]);
    assert("MANUAL"@[0] != "TP"@[0]);
}

proof fn lemma_sound_flat(s: StrategyView, kind: Seq<char>, fill: Double, ts: i64)
    requires
        sound(s),
        s.pos is Some,
        kind == "TP"@ ==> fill == s.pos->0.tp,
        ts >= s.pos->0.entry_ts,
    ensures
        sound(s.flat(kind, fill, ts)),
{
    let t = s.flat(kind, fill, ts);
    assert forall|i: int| 0 <= i < t.trades.len() implies settled(t.cfg.rr, #[trigger] t.trades[i]) by {
        if i < s.trades.len() {
            assert(t.trades[i] == s.trades[i]);
        }
    }
}

proof fn lemma_sound_managed(s: StrategyView, b: Bar)
    requires
        sound(s),
        s.pos is Some,
        b.ts == s.last_bar_ts,
    ensures
        sound(s.managed(b).0),
        s.managed(b).0.last_bar_ts == s.last_bar_ts,
{
    let p = laws::at_exits(s, b);
    let s1 = StrategyView { pos: Some(p), ..s };
    let p1 = s.pos->0.run(b);
    let a = engine::earned(p1, s.cfg.ladder, s.cfg.ladder.len());
    let s2 = if s.cfg.trail_on && !a.same_number(p1.trail_a) {
        s1.told(EventView::Trail { ts: b.ts as int, a, sl: p.sl })
    } else {
        s1
    };
    assert(sound(s2));
    lemma_exit_names();
    if p.stopped(b, s.cfg.sl_touch) {
        lemma_sound_flat(s2, "SL"@, p.sl, b.ts);
    } else if p.targeted(b, s.cfg.sl_touch) {
        lemma_sound_flat(s2, "TP"@, p.tp, b.ts);
    }
}

proof fn lemma_sound_checked(s: StrategyView, b: Bar)
    requires
        sound(s),
        b.ts == s.last_bar_ts,
    ensures
        sound(s.checked(b).0),
{
    if let Some(side) = s.trigger(b) {
        let t = s.entered(side, b, s.prev_poc->0);
        assert(sound(t));
        if s.cfg.same_bar_exits {
            lemma_sound_managed(t, b);
        }
    }
}

proof fn lemma_sound_step(s: StrategyView, b: Bar)
    requires
        sound(s),
    ensures
        sound(s.step(b).0),
{
    reveal(StrategyView::session_step);
    lemma_exit_names();
    if b.ts > s.last_bar_ts {
        let s0 = s.taken(b);
        assert(sound(s0));
        if engine::trading_day(b.ts as int) {
            if s0.pos is Some {
                lemma_sound_flat(s0, "EOS"@, s0.last_close_or(b.o), b.ts);
            }
            let s1 = s0.in_session(b).0;
            assert(sound(s1));
            let s2 = StrategyView { session_bars: s1.session_bars.push(b), eos_done: false, ..s1 };
            assert(sound(s2));
            if s2.pos is Some {
                lemma_sound_managed(s2, b);
            }
            lemma_sound_checked(s2.managed_if_open(b).0, b);
        } else if s0.pos is Some && !s0.eos_done {
            lemma_sound_flat(s0, "EOS"@, s0.last_close_or(b.c), b.ts);
        }
    }
}

proof fn lemma_sound(cfg: CfgView, bars: Seq<Bar>)
    ensures
        sound(StrategyView::fresh(cfg).steps(bars).0),
        StrategyView::fresh(cfg).steps(bars).0.cfg == cfg,
    decreases bars.len(),
{
    let f = StrategyView::fresh(cfg);
    if bars.len() == 0 {
        assert(bars =~= seq![]);
        engine::lemma_no_bars(f);
    } else {
        lemma_sound(cfg, bars.drop_last());
        engine::lemma_one_more_bar(f, bars);
        lemma_sound_step(f.steps(bars.drop_last()).0, bars.last());
        laws::lemma_same_cfg(f.steps(bars.drop_last()).0, bars.last());
    }
}

/// Whatever bars the engine was fed, every trade has its stop one stop distance
/// from the entry, its target `rr` of them away on the other side, a gain that
/// is the way from entry to exit, and a fill at the target where the target
/// ended it.
pub proof fn law_every_trade_is_settled(cfg: CfgView, bars: Seq<Bar>, i: int)
    requires
        0 <= i < StrategyView::fresh(cfg).steps(bars).0.trades.len(),
    ensures
        ({
            let t = StrategyView::fresh(cfg).steps(bars).0.trades[i];
            let unit = Double::whole(1);
            let hundred = Double::whole(100);
            &&& t.side == 1 || t.side == -1
            &&& t.rr == cfg.rr
            &&& t.side == 1 ==> {
                &&& t.sl == t.entry.product(unit.difference(t.slp))
                &&& t.tp == t.entry.product(unit.sum(t.slp.product(cfg.rr)))
                &&& t.pct == t.exit.quotient(t.entry).difference(unit).product(hundred)
            }
            &&& t.side == -1 ==> {
                &&& t.sl == t.entry.product(unit.sum(t.slp))
                &&& t.tp == t.entry.product(unit.difference(t.slp.product(cfg.rr)))
                &&& t.pct == unit.difference(t.exit.quotient(t.entry)).product(hundred)
            }
            &&& t.r == t.pct.quotient(t.slp.product(hundred))
            &&& t.exit_type == "TP"@ ==> t.exit == t.tp
            &&& t.entry_ts <= t.exit_ts
        }),
{
    lemma_sound(cfg, bars);
    assert(settled(cfg.rr, StrategyView::fresh(cfg).steps(bars).0.trades[i]));
}

/// The point of control of a session is that of the session before: of the bars
/// that ended with it, from its own start on. The new one starts at 22:00 UTC of
/// its day.
pub proof fn law_point_of_the_session_before(s: StrategyView, b: Bar)
    requires
        s.active_sd is Some,
        s.active_sd != Some(engine::date_key(b.ts as int)),
        b.ts >= 0,
    ensures
        ({
            let t = s.in_session(b).0;
            &&& s.session_bars.len() == 0 ==> t.prev_poc is None && t.prev_prof is None
            &&& s.session_bars.len() > 0 ==> t.prev_prof == crate::profile::profile_of(
                s.session_bars,
                s.active_start,
            )
            &&& t.prev_poc == match t.prev_prof {
                Some(p) => Some(p.poc),
                None => None,
            }
            &&& t.active_start <= b.ts
            &&& b.ts - t.active_start < 86_400
            &&& t.active_start % 86_400 == 79_200
        }),
{
    crate::calendar::lemma_session_holds(b.ts as int);
}

/// What is told of a new session is what it starts with.
pub proof fn law_new_session_is_told(s: StrategyView, b: Bar)
    requires
        s.active_sd is Some,
        s.active_sd != Some(engine::date_key(b.ts as int)),
    ensures
        ({
            let (t, told) = s.in_session(b);
            &&& told.len() > 0
            &&& told.last() == (EventView::Session {
                date: engine::date_key(b.ts as int),
                open: b.o,
                prev_poc: t.prev_poc,
                bias: t.bias,
                ts: t.active_start as int,
            })
            &&& s.pos is None ==> told.len() == 1
            &&& s.pos is Some ==> told.len() == 2 && told[0] == EventView::Close(
                s.pos->0.closed("EOS"@, s.last_close_or(b.o), b.ts),
            )
        }),
{
}

/// A position that is closed by hand is closed at the close of the latest bar, and
/// told; without a position or a bar nothing changes.
pub proof fn law_closed_by_hand(s: StrategyView)
    ensures
        ({
            let (t, told) = s.forced();
            let latest = if s.session_bars.len() > 0 {
                Some(s.session_bars.last())
            } else if s.bars.len() > 0 {
                Some(s.bars.last())
            } else {
                None
            };
            &&& s.pos is None || latest is None ==> t == s && told is None
            &&& s.pos is Some && latest is Some ==> {
                let made = t.trades.last();
                &&& t.pos is None
                &&& t.trades == s.trades.push(made)
                &&& told == Some(EventView::Close(made))
                &&& made.exit == latest->0.c
                &&& made.exit_ts == latest->0.ts
                &&& made.exit_type == "MANUAL"@
                &&& made.entry == s.pos->0.entry
                &&& made.side == s.pos->0.side
                &&& t.bars == s.bars
                &&& t.session_traded == s.session_traded
            }
        }),
{
}

/// When a bar takes the stop or the target. A high takes what lies above: the
/// target of a long and the stop of a short. What lies below is taken by a low
/// where touching counts, and else by a close.
pub proof fn law_when_levels_are_taken(p: PosView, b: Bar, touch: bool)
    requires
        p.side == 1 || p.side == -1,
    ensures
        p.side == 1 && touch ==> p.stopped(b, touch) == b.l.at_most(p.sl),
        p.side == 1 && !touch ==> p.stopped(b, touch) == b.c.at_most(p.sl),
        p.side == 1 ==> p.targeted(b, touch) == p.tp.at_most(b.h),
        p.side == -1 ==> p.stopped(b, touch) == p.sl.at_most(b.h),
        p.side == -1 && touch ==> p.targeted(b, touch) == b.l.at_most(p.tp),
        p.side == -1 && !touch ==> p.targeted(b, touch) == b.c.at_most(p.tp),
{
}

} // verus!
