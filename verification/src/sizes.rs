//! What the ledger's numbers mean: how large a position is, what a trade costs,
//! and what it leaves.

use crate::double;
use crate::double::Double;
use crate::engine::TradeView;
use crate::json::JsonView;
use crate::ledger;
use crate::ledger::{FeeModel, LedgerView, Sizing};
use crate::rounding;
use crate::rounding::PARTS;
use vstd::arithmetic::mul::*;
use vstd::arithmetic::power2::*;
use vstd::prelude::*;

verus! {

// ---------------------------------------------------------------------------
// Sizes
// ---------------------------------------------------------------------------

/// A position is sized by the equity and the settings alone: ledgers that agree
/// in these size alike, whatever they started with and whatever they have booked.
pub proof fn law_size_rests_on_the_equity(
    a: LedgerView,
    b: LedgerView,
    entry: Double,
    slp: Double,
)
    requires
        a.equity == b.equity,
        a.sizing == b.sizing,
    ensures
        a.sized(entry, slp) == b.sized(entry, slp),
        a.opened(entry, slp).open_sizing == b.opened(entry, slp).open_sizing,
{
}

/// Sized by risk, the notional is what makes the stop cost `risk_pct` percent of
/// the equity: `equity * risk_pct / 100`, over the stop distance. It is held
/// between zero and `leverage_cap` times the equity. Otherwise it is the one that
/// is set. The quantity is the notional over the entry price.
pub proof fn law_notional_of_the_risk(l: LedgerView, entry: Double, slp: Double)
    ensures
        ({
            let s = l.sized(entry, slp);
            let risk = l.equity.product(l.sizing.risk_pct).quotient(Double::whole(100));
            let wanted = risk.quotient(slp);
            let cap = l.equity.product(l.sizing.leverage_cap);
            let zero = Double { bits: 0 };
            &&& l.sizing.legacy ==> s.notional_usd == l.sizing.position_usd
            &&& !l.sizing.legacy && Double::ratio(1, 1_000_000_000).at_most(slp) && zero.at_most(
                wanted,
            ) && wanted.at_most(cap) ==> s.notional_usd == wanted
            &&& !l.sizing.legacy && Double::ratio(1, 1_000_000_000).at_most(slp) && cap.below(
                wanted,
            ) && zero.at_most(cap) ==> s.notional_usd == cap
            &&& zero.below(entry) ==> s.qty == s.notional_usd.quotient(entry)
            &&& entry.at_most(zero) ==> s.qty == zero
            &&& s.risk_usd == s.notional_usd.product(slp)
            &&& l.opened(entry, slp).open_sizing == Some(s)
        }),
{
    double::lemma_nonnegative(Double { bits: 0 });
}

/// Where the cap does not bind, the stop costs `risk_pct` percent of the equity:
/// the notional times the stop distance differs from that by at most five parts
/// in `2^53`. (In units: `notional * slp * 100` against `equity * risk_pct`.)
pub proof fn law_stop_costs_the_risk(l: LedgerView, slp: Double)
    requires
        !l.sizing.legacy,
        l.equity.finite(),
        l.sizing.risk_pct.finite(),
        l.equity.value() >= 0,
        l.sizing.risk_pct.value() >= 0,
        slp.finite(),
        Double::ratio(1, 1_000_000_000).at_most(slp),
        l.notional(slp).below(l.equity.product(l.sizing.leverage_cap)),
        l.notional(slp).finite(),
        l.equity.value() * l.sizing.risk_pct.value() >= 100 * (double::one() * PARTS),
        l.equity.value() * l.sizing.risk_pct.value() >= 100 * (slp.value() * PARTS),
    ensures
        ({
            let cost = l.notional(slp).value() * slp.value() * 100;
            let risk = l.equity.value() * l.sizing.risk_pct.value();
            &&& (cost - risk) * PARTS <= 5 * risk
            &&& (risk - cost) * PARTS <= 5 * risk
        }),
{
    let u = double::one() as int;
    let t: int = PARTS as int;
    let hundred = Double::whole(100);
    let zero = Double { bits: 0 };
    let e = l.equity.value();
    let k = l.sizing.risk_pct.value();
    let a = l.equity.product(l.sizing.risk_pct);
    let r = a.quotient(hundred);
    let w = r.quotient(slp);
    lemma2_to64();
    lemma2_to64_rest();
    double::lemma_pow2_order(53, 1074);
    lemma_pow2_pos(1074);
    double::lemma_nonnegative(zero);
    double::lemma_positive_ratio(1, 1_000_000_000);
    rounding::lemma_small_whole(100);
    double::lemma_nonnegative(hundred);
    double::lemma_units_order(hundred.magnitude(), 0);
    lemma_product_sign(l.equity, l.sizing.risk_pct);
    lemma_quotient_sign(a, hundred);
    lemma_quotient_sign(r, slp);
    let cap = l.equity.product(l.sizing.leverage_cap);
    assert(l.notional(slp) == w.smaller(cap).larger(zero));
    assert(!cap.nan());
    assert(w.smaller(cap) == w || w.smaller(cap) == cap);
    assert(l.notional(slp).value() == w.value());
    double::lemma_units_order(l.notional(slp).magnitude(), w.magnitude());
    double::lemma_value_sign(w);
    double::lemma_value_sign(l.notional(slp));
    assert(w.finite());
    rounding::lemma_quotient_near(r, slp);
    rounding::lemma_quotient_near(a, hundred);
    rounding::lemma_product_near(l.equity, l.sizing.risk_pct);
    lemma_risk(e, k, u, t, a.value(), r.value(), w.value(), slp.value());
}

/// A product of numbers that are not below zero is none either.
proof fn lemma_product_sign(a: Double, b: Double)
    requires
        a.finite(),
        b.finite(),
        a.value() >= 0,
        b.value() >= 0,
    ensures
        rounding::not_below_zero(a.product(b)),
{
    let m = double::round_ratio(
        double::units(a.magnitude()) * double::units(b.magnitude()),
        double::one(),
    );
    lemma_pow2_pos(1074);
    double::lemma_value_sign(a);
    double::lemma_value_sign(b);
    double::lemma_units_order(a.magnitude(), 0);
    double::lemma_units_order(b.magnitude(), 0);
    double::lemma_signed(a.negative() != b.negative(), m);
    if a.negative() != b.negative() {
        lemma_mul_basics(double::units(a.magnitude()) as int);
        lemma_mul_basics(double::units(b.magnitude()) as int);
        double::lemma_round_exact(0);
        double::lemma_round_same(0, double::one(), 0, 1);
        double::lemma_units_order(m, 0);
    }
}

proof fn lemma_quotient_sign(a: Double, b: Double)
    requires
        rounding::not_below_zero(a),
        b.finite(),
        b.value() > 0,
    ensures
        rounding::not_below_zero(a.quotient(b)),
{
    double::lemma_value_sign(a);
    double::lemma_value_sign(b);
    double::lemma_units_order(a.magnitude(), 0);
    double::lemma_units_order(0, double::INFINITE as nat);
    let n = double::units(a.magnitude()) * double::one();
    let m = double::round_ratio(n, double::units(b.magnitude()));
    double::lemma_units_order(b.magnitude(), 0);
    double::lemma_signed(a.negative() != b.negative(), m);
    double::lemma_signed(a.negative() != b.negative(), double::INFINITE as nat);
    if a.negative() {
        lemma_mul_basics(double::one() as int);
        double::lemma_round_exact(0);
        double::lemma_round_same(0, double::units(b.magnitude()), 0, 1);
        double::lemma_units_order(m, 0);
    }
}

/// What the three roundings of a notional come to, in units.
proof fn lemma_risk(e: int, k: int, u: int, t: int, a: int, r: int, w: int, s: int)
    requires
        t == PARTS,
        0 < u,
        0 < s,
        0 <= a,
        0 <= r,
        0 <= w,
        e * k >= 100 * (u * t),
        e * k >= 100 * (s * t),
        (a * u - e * k) * (2 * t) <= 2 * (e * k) + u * t,
        (e * k - a * u) * (2 * t) <= 2 * (e * k) + u * t,
        (r * (100 * u) - a * u) * (2 * t) <= 2 * (a * u) + (100 * u) * t,
        (a * u - r * (100 * u)) * (2 * t) <= 2 * (a * u) + (100 * u) * t,
        (w * s - r * u) * (2 * t) <= 2 * (r * u) + s * t,
        (r * u - w * s) * (2 * t) <= 2 * (r * u) + s * t,
    ensures
        (w * s * 100 - e * k) * t <= 5 * (e * k),
        (e * k - w * s * 100) * t <= 5 * (e * k),
{
    let ek = e * k;
    let au = a * u;
    let ru = r * u;
    let ws = w * s;
    let ut = u * t;
    let st = s * t;
    assert(r * (100 * u) == 100 * ru) by (nonlinear_arith)
        requires
            ru == r * u,
    ;
    assert((100 * u) * t == 100 * ut) by (nonlinear_arith)
        requires
            ut == u * t,
    ;
    assert(w * s * 100 == 100 * ws);
    assert(ek >= 0 && au >= 0 && ru >= 0) by (nonlinear_arith)
        requires
            a >= 0,
            r >= 0,
            u > 0,
            t > 0,
            au == a * u,
            ru == r * u,
            ek >= 100 * (u * t),
    ;
    assert(2 * t == 0x40_0000_0000_0000);
    lemma_risk_sum(ek, au, ru, ws, ut, st);
}

proof fn lemma_risk_sum(ek: int, au: int, ru: int, ws: int, ut: int, st: int)
    requires
        ek >= 0,
        au >= 0,
        ru >= 0,
        ek >= 100 * ut,
        ek >= 100 * st,
        (au - ek) * 0x40_0000_0000_0000 <= 2 * ek + ut,
        (ek - au) * 0x40_0000_0000_0000 <= 2 * ek + ut,
        (100 * ru - au) * 0x40_0000_0000_0000 <= 2 * au + 100 * ut,
        (au - 100 * ru) * 0x40_0000_0000_0000 <= 2 * au + 100 * ut,
        (ws - ru) * 0x40_0000_0000_0000 <= 2 * ru + st,
        (ru - ws) * 0x40_0000_0000_0000 <= 2 * ru + st,
    ensures
        (100 * ws - ek) * 0x20_0000_0000_0000 <= 5 * ek,
        (ek - 100 * ws) * 0x20_0000_0000_0000 <= 5 * ek,
{
    let first = (ws - ru) * 0x40_0000_0000_0000;
    let second = (100 * ru - au) * 0x40_0000_0000_0000;
    let third = (au - ek) * 0x40_0000_0000_0000;
    assert((100 * ws - ek) * 0x40_0000_0000_0000 == 100 * first + second + third);
    assert(third <= 3 * ek);
    assert(10 * au <= 11 * ek);
    assert(second <= 4 * ek);
    assert(1000 * ru <= 12 * ek);
}

/// The larger the equity, the larger the position, where it is sized by risk.
pub proof fn law_size_follows_the_equity(l: LedgerView, more: Double, slp: Double)
    requires
        !l.sizing.legacy,
        l.equity.at_most(more),
        !l.equity.negative(),
        !more.negative(),
        more.finite(),
        l.equity.finite(),
        l.sizing.risk_pct.finite(),
        !l.sizing.risk_pct.negative(),
        !l.sizing.risk_pct.zero(),
        l.sizing.leverage_cap.finite(),
        !l.sizing.leverage_cap.negative(),
        !l.sizing.leverage_cap.zero(),
        slp.finite(),
    ensures
        l.notional(slp).at_most((LedgerView { equity: more, ..l }).notional(slp)),
{
    let hundred = Double::whole(100);
    let floor = Double::ratio(1, 1_000_000_000);
    let d = slp.larger(floor);
    double::lemma_positive_ratio(1, 1_000_000_000);
    double::lemma_positive(floor);
    double::lemma_positive(slp);
    lemma_floor_finite();
    rounding::lemma_small_whole(100);
    lemma_pow2_pos(1074);
    double::lemma_units_order(hundred.magnitude(), 0);
    double::lemma_positive(d);
    double::lemma_product_order(l.equity, more, l.sizing.risk_pct);
    double::lemma_product_order(l.equity, more, l.sizing.leverage_cap);
    let a = l.equity.product(l.sizing.risk_pct);
    let b = more.product(l.sizing.risk_pct);
    rounding::lemma_quotient_order(a, b, hundred);
    rounding::lemma_quotient_order(a.quotient(hundred), b.quotient(hundred), d);
    double::lemma_nonnegative(Double { bits: 0 });
}

proof fn lemma_floor_finite()
    ensures
        Double::ratio(1, 1_000_000_000).finite(),
{
    double::lemma_ratio_order(1, 1_000_000_000, 1, 1);
    double::lemma_one();
    double::lemma_positive_ratio(1, 1_000_000_000);
    double::lemma_between(
        Double::ratio(1, 1_000_000_000),
        Double::ratio(1, 1_000_000_000),
        Double::whole(1),
    );
}

// ---------------------------------------------------------------------------
// Costs
// ---------------------------------------------------------------------------

/// What a trade costs and leaves. The entry pays the maker fee on what was bought
/// or sold at the entry price; the exit pays the taker fee on what that is worth
/// at the exit price; a stop and a close by hand pay the slippage on it too, and
/// nothing else does. The gain is the way from entry to exit, times the quantity,
/// forward for a long trade and backward for a short one; what is left is the
/// gain less the two fees and the slippage.
pub proof fn law_what_a_trade_leaves(f: FeeModel, t: TradeView, s: Sizing)
    requires
        t.side == 1 || t.side == -1,
    ensures
        ({
            let o = f.outcome(t, s);
            let hundred = Double::whole(100);
            let bought = s.qty.product(t.entry);
            let sold = s.qty.product(t.exit);
            let move_usd = s.qty.product(t.exit.difference(t.entry));
            let gain = if t.side == 1 {
                move_usd.product(Double::whole(1))
            } else {
                move_usd.product(Double::whole(-1))
            };
            &&& o.entry_fee == bought.product(f.maker_pct).quotient(hundred)
            &&& o.exit_fee == sold.product(f.taker_pct).quotient(hundred)
            &&& (t.exit_type == "SL"@ || t.exit_type == "MANUAL"@) ==> o.slip == sold.product(
                f.slip_pct,
            ).quotient(hundred)
            &&& t.exit_type == "TP"@ || t.exit_type == "EOS"@ ==> o.slip == (Double { bits: 0 })
            &&& o.fee_usd == o.entry_fee.sum(o.exit_fee)
            &&& o.pnl_usd == gain.difference(o.entry_fee).difference(o.exit_fee).difference(o.slip)
            &&& (Double { bits: 0 }).below(s.risk_usd) ==> o.net_r == o.pnl_usd.quotient(s.risk_usd)
            &&& s.risk_usd.at_most(Double { bits: 0 }) ==> o.net_r == (Double { bits: 0 })
        }),
{
    reveal_strlit("SL");
    reveal_strlit("TP");
    reveal_strlit("EOS");
    reveal_strlit("MANUAL");
    assert("TP"@[0] != "SL"@[0]);
    assert("TP"@[0] != "MANUAL"@[0]);
    assert("EOS"@[0] != "SL"@[0]);
    assert("EOS"@[0] != "MANUAL"@[0]);
}

/// The last four hundred points of a curve.
pub open spec fn last_points(curve: Seq<(i64, Double)>) -> Seq<(i64, Double)> {
    if curve.len() <= 400 {
        curve
    } else {
        curve.skip(curve.len() - 400)
    }
}

/// A closed trade is booked: the equity changes by what the trade leaves, the
/// fees and the slippage count among the fees paid, and the curve goes on with
/// the equity, rounded to cents, for four hundred points. The size is that of the open position.
pub proof fn law_trade_is_booked(l: LedgerView, t: TradeView, ts: i64, s: Sizing)
    requires
        l.open_sizing == Some(s),
    ensures
        ({
            let m = l.closed(t, ts);
            let o = l.fee.outcome(t, s);
            let cents = Double::whole(100);
            &&& m.equity == l.equity.sum(o.pnl_usd)
            &&& m.fees_paid == l.fees_paid.sum(o.fee_usd.sum(o.slip))
            &&& m.n_trades == l.n_trades + 1
            &&& m.curve == last_points(l.curve.push(m.curve.last()))
            &&& 0 < m.curve.len()
            &&& m.curve.last() == (ts, m.equity.product(cents).to_whole().quotient(cents))
            &&& m.open_sizing is None
            &&& m.start == l.start && m.sizing == l.sizing && m.fee == l.fee
        }),
{
}

/// A trade of the past is booked as if it had been sized at its entry, with the
/// equity of then.
pub proof fn law_past_trade_is_sized_then_booked(l: LedgerView, t: TradeView)
    ensures
        ({
            let m = l.replayed(t);
            let o = l.fee.outcome(t, l.sized(t.entry, t.slp));
            &&& m.equity == l.equity.sum(o.pnl_usd)
            &&& m.fees_paid == l.fees_paid.sum(o.fee_usd.sum(o.slip))
            &&& m.n_trades == l.n_trades + 1
            &&& m.curve.last().0 == t.exit_ts
        }),
{
}

/// A new ledger holds what it starts with, and nothing else.
pub proof fn law_fresh_ledger(
    start: Double,
    sizing: ledger::SizingCfg,
    fee: FeeModel,
    now: i64,
)
    ensures
        ({
            let l = LedgerView::fresh(start, sizing, fee, now);
            &&& l.start == start && l.equity == start
            &&& l.n_trades == 0
            &&& l.curve == seq![(now, start)]
            &&& l.fees_paid == (Double { bits: 0 })
            &&& l.sizing == sizing && l.fee == fee
            &&& l.open_sizing is None
        }),
{
}

/// A number in steps of `1 / n`: times `n`, rounded to a whole number, over `n`.
pub proof fn law_steps(x: Double, n: int)
    ensures
        ledger::in_steps(x, n) == x.product(Double::whole(n)).to_whole().quotient(
            Double::whole(n),
        ),
{
}

/// What is told of a trade carries its own numbers and those of its size and its
/// costs, each under its name.
pub proof fn law_closed_trade_is_told(l: LedgerView, t: TradeView, s: Sizing)
    requires
        l.open_sizing == Some(s),
    ensures
        ({
            let f = l.close_fields(t);
            let o = l.fee.outcome(t, s);
            let e = l.closed(t, t.exit_ts).equity;
            &&& f.len() == 25
            &&& f.contains(
                (
                    "side"@,
                    JsonView::Text(
                        if t.side == 1 {
                            "long"@
                        } else {
                            "short"@
                        },
                    ),
                ),
            )
            &&& f.contains(("session"@, JsonView::Text(t.session)))
            &&& f.contains(("entry"@, JsonView::Number(t.entry)))
            &&& f.contains(("sl"@, JsonView::Number(t.sl)))
            &&& f.contains(("tp"@, JsonView::Number(t.tp)))
            &&& f.contains(("exit"@, JsonView::Number(t.exit)))
            &&& f.contains(("exit_type"@, JsonView::Text(t.exit_type)))
            &&& f.contains(("rr"@, JsonView::Number(t.rr)))
            &&& f.contains(("slp"@, JsonView::Number(t.slp)))
            &&& f.contains(("pct"@, JsonView::Number(t.pct)))
            &&& f.contains(("r"@, JsonView::Number(t.r)))
            &&& f.contains(("entry_ts"@, JsonView::Whole(t.entry_ts as int)))
            &&& f.contains(("exit_ts"@, JsonView::Whole(t.exit_ts as int)))
            &&& f.contains(("bars_held"@, JsonView::Whole(t.bars_held as int)))
            &&& f.contains(("trail_a"@, JsonView::Number(t.trail_a)))
            &&& f.contains(("qty"@, JsonView::Number(s.qty)))
            &&& f.contains(("notional_usd"@, JsonView::Number(s.notional_usd)))
            &&& f.contains(("risk_usd"@, JsonView::Number(s.risk_usd)))
            &&& f.contains(("entry_fee_usd"@, JsonView::Number(millionths(o.entry_fee))))
            &&& f.contains(("exit_fee_usd"@, JsonView::Number(millionths(o.exit_fee))))
            &&& f.contains(("fee_usd"@, JsonView::Number(millionths(o.fee_usd))))
            &&& f.contains(("slip_usd"@, JsonView::Number(millionths(o.slip))))
            &&& f.contains(("pnl_usd"@, JsonView::Number(millionths(o.pnl_usd))))
            &&& f.contains(
                (
                    "net_r"@,
                    JsonView::Number(
                        o.net_r.product(Double::whole(10_000)).to_whole().quotient(
                            Double::whole(10_000),
                        ),
                    ),
                ),
            )
            &&& f.contains(
                (
                    "equity"@,
                    JsonView::Number(
                        e.product(Double::whole(100)).to_whole().quotient(Double::whole(100)),
                    ),
                ),
            )
        }),
{
    let f = l.close_fields(t);
    assert(f[0].0 == "side"@);
    assert(f[1].0 == "session"@);
    assert(f[2].0 == "entry"@);
    assert(f[3].0 == "sl"@);
    assert(f[4].0 == "tp"@);
    assert(f[5].0 == "exit"@);
    assert(f[6].0 == "exit_type"@);
    assert(f[7].0 == "rr"@);
    assert(f[8].0 == "slp"@);
    assert(f[9].0 == "pct"@);
    assert(f[10].0 == "r"@);
    assert(f[11].0 == "entry_ts"@);
    assert(f[12].0 == "exit_ts"@);
    assert(f[13].0 == "bars_held"@);
    assert(f[14].0 == "trail_a"@);
    assert(f[15].0 == "qty"@);
    assert(f[16].0 == "notional_usd"@);
    assert(f[17].0 == "risk_usd"@);
    assert(f[18].0 == "entry_fee_usd"@);
    assert(f[19].0 == "exit_fee_usd"@);
    assert(f[20].0 == "fee_usd"@);
    assert(f[21].0 == "slip_usd"@);
    assert(f[22].0 == "pnl_usd"@);
    assert(f[23].0 == "net_r"@);
    assert(f[24].0 == "equity"@);
}

/// A number in steps of a millionth.
pub open spec fn millionths(x: Double) -> Double {
    x.product(Double::whole(1_000_000)).to_whole().quotient(Double::whole(1_000_000))
}

/// What is told of the balance.
pub proof fn law_balance_is_told(l: LedgerView, broker: Seq<char>, armed: bool)
    ensures
        ({
            let f = l.balance_fields(broker, armed);
            &&& f.len() == 7
            &&& f.contains(("broker"@, JsonView::Text(broker)))
            &&& f.contains(("equity"@, JsonView::Number(l.equity)))
            &&& f.contains(("start"@, JsonView::Number(l.start)))
            &&& f.contains(("n_trades"@, JsonView::Whole(l.n_trades as int)))
            &&& f.contains(("unrealized"@, JsonView::Null))
            &&& f.contains(("mirror_armed"@, JsonView::Bool(armed)))
            &&& f.contains(("fees_paid"@, JsonView::Number(millionths(l.fees_paid))))
        }),
{
    let f = l.balance_fields(broker, armed);
    assert(f[0].0 == "broker"@);
    assert(f[1].0 == "equity"@);
    assert(f[2].0 == "start"@);
    assert(f[3].0 == "n_trades"@);
    assert(f[4].0 == "unrealized"@);
    assert(f[5].0 == "mirror_armed"@);
    assert(f[6].0 == "fees_paid"@);
}

/// The curve is told point by point, in order, each with its time and its equity.
pub proof fn law_curve_is_told(curve: Seq<(i64, Double)>, i: int)
    requires
        0 <= i < curve.len(),
    ensures
        ledger::curve_items(curve).len() == curve.len(),
        ledger::curve_items(curve)[i] == JsonView::Object(
            seq![
                ("ts"@, JsonView::Whole(curve[i].0 as int)),
                ("eq"@, JsonView::Number(curve[i].1)),
            ],
        ),
{
}

} // verus!
