//! The paper ledger: position sizing, fees and the equity that trades leave.
//!
//! A position is sized so that its stop costs a share of the equity, within a
//! cap on the leverage. Entries rest in the book and pay the maker fee, every
//! exit pays the taker fee, and fills of a stop or by hand pay slippage on top.

use crate::clock::now_ts;
use crate::double::Double;
use crate::engine;
use crate::engine::{side_text, Trade, TradeView};
use crate::json::{put, put_item, text, Json, JsonView};
use crate::text::same;
use vstd::prelude::*;
use vstd::string::*;

verus! {

/// Points of the equity curve that are kept.
pub const CURVE_KEPT: usize = 400;

/// Fees and slippage, in percent of the notional.
#[derive(Clone, Copy, Debug)]
pub struct FeeModel {
    /// Paid on entry.
    pub maker_pct: Double,
    /// Paid on exit.
    pub taker_pct: Double,
    /// Paid on top where a stop or a close by hand was filled.
    pub slip_pct: Double,
}

/// The size of a position.
#[derive(Clone, Copy, Debug)]
pub struct Sizing {
    pub qty: Double,
    pub notional_usd: Double,
    /// What the position loses at its stop.
    pub risk_usd: Double,
}

/// How positions are sized.
#[derive(Clone, Copy, Debug)]
pub struct SizingCfg {
    /// Whether every position has the notional `position_usd`.
    pub legacy: bool,
    pub position_usd: Double,
    /// The share of the equity that a stop costs, in percent.
    pub risk_pct: Double,
    /// The notional is at most this many times the equity.
    pub leverage_cap: Double,
}

/// The ledger.
pub struct Ledger {
    pub start: Double,
    pub equity: Double,
    pub n_trades: usize,
    /// Times and the equity at them.
    pub curve: Vec<(i64, Double)>,
    pub fees_paid: Double,
    pub sizing: SizingCfg,
    pub fee: FeeModel,
    /// The size of the position that is open.
    pub open_sizing: Option<Sizing>,
}

/// What the ledger says.
pub struct LedgerView {
    pub start: Double,
    pub equity: Double,
    pub n_trades: nat,
    pub curve: Seq<(i64, Double)>,
    pub fees_paid: Double,
    pub sizing: SizingCfg,
    pub fee: FeeModel,
    pub open_sizing: Option<Sizing>,
}

impl View for Ledger {
    type V = LedgerView;

    open spec fn view(&self) -> LedgerView {
        LedgerView {
            start: self.start,
            equity: self.equity,
            n_trades: self.n_trades as nat,
            curve: self.curve@,
            fees_paid: self.fees_paid,
            sizing: self.sizing,
            fee: self.fee,
            open_sizing: self.open_sizing,
        }
    }
}

/// Nothing.
pub open spec fn zero() -> Double {
    Double { bits: 0 }
}

/// `amount * pct / 100`.
pub open spec fn percent_of(amount: Double, pct: Double) -> Double {
    amount.product(pct).quotient(engine::hundred())
}

/// A number rounded to a multiple of `1 / steps`.
pub open spec fn in_steps(x: Double, steps: int) -> Double {
    x.product(Double::whole(steps)).to_whole().quotient(Double::whole(steps))
}

/// The size that a position never had.
pub open spec fn no_size() -> Sizing {
    Sizing { qty: zero(), notional_usd: zero(), risk_usd: zero() }
}

/// Whether a fill of this kind slips: a stop and a close by hand do.
pub open spec fn slips(exit_type: Seq<char>) -> bool {
    exit_type == "SL"@ || exit_type == "MANUAL"@
}

/// What closing a trade of a given size comes to.
#[derive(Clone, Copy, Debug)]
pub struct Outcome {
    pub entry_fee: Double,
    pub exit_fee: Double,
    pub slip: Double,
    pub fee_usd: Double,
    pub pnl_usd: Double,
    pub net_r: Double,
}

impl FeeModel {
    /// What closing the trade `t` of the size `s` comes to.
    pub open spec fn outcome(self, t: TradeView, s: Sizing) -> Outcome {
        let entry_notional = s.qty.product(t.entry);
        let exit_notional = s.qty.product(t.exit);
        let entry_fee = percent_of(entry_notional, self.maker_pct);
        let exit_fee = percent_of(exit_notional, self.taker_pct);
        let slip = if slips(t.exit_type) {
            percent_of(exit_notional, self.slip_pct)
        } else {
            zero()
        };
        let gross = s.qty.product(t.exit.difference(t.entry)).product(Double::whole(t.side as int));
        let pnl_usd = gross.difference(entry_fee).difference(exit_fee).difference(slip);
        Outcome {
            entry_fee,
            exit_fee,
            slip,
            fee_usd: entry_fee.sum(exit_fee),
            pnl_usd,
            net_r: if zero().below(s.risk_usd) {
                pnl_usd.quotient(s.risk_usd)
            } else {
                zero()
            },
        }
    }
}

/// A list cut to its last `max` items.
pub open spec fn last_items<T>(s: Seq<T>, max: int) -> Seq<T> {
    if s.len() > max {
        s.skip(s.len() - max)
    } else {
        s
    }
}

impl LedgerView {
    /// The ledger at the time `now`, before any trade.
    pub open spec fn fresh(start: Double, sizing: SizingCfg, fee: FeeModel, now: i64) -> LedgerView {
        LedgerView {
            start,
            equity: start,
            n_trades: 0,
            curve: seq![(now, start)],
            fees_paid: zero(),
            sizing,
            fee,
            open_sizing: None,
        }
    }

    /// The notional of a position with the stop distance `slp`.
    pub open spec fn notional(self, slp: Double) -> Double {
        if self.sizing.legacy {
            self.sizing.position_usd
        } else {
            let risk = percent_of(self.equity, self.sizing.risk_pct);
            let cap = self.equity.product(self.sizing.leverage_cap);
            risk.quotient(slp.larger(Double::ratio(1, 1_000_000_000))).smaller(cap).larger(zero())
        }
    }

    /// The size of a position.
    pub open spec fn sized(self, entry: Double, slp: Double) -> Sizing {
        let notional = self.notional(slp);
        Sizing {
            qty: if zero().below(entry) {
                notional.quotient(entry)
            } else {
                zero()
            },
            notional_usd: notional,
            risk_usd: notional.product(slp),
        }
    }

    /// The ledger with the size of a position noted.
    pub open spec fn opened(self, entry: Double, slp: Double) -> LedgerView {
        LedgerView { open_sizing: Some(self.sized(entry, slp)), ..self }
    }

    /// The size of the open position.
    pub open spec fn size(self) -> Sizing {
        match self.open_sizing {
            Some(s) => s,
            None => no_size(),
        }
    }

    /// What closing the trade `t` comes to.
    pub open spec fn outcome(self, t: TradeView) -> Outcome {
        self.fee.outcome(t, self.size())
    }

    /// The ledger with the trade `t` closed at the time `ts`.
    pub open spec fn closed(self, t: TradeView, ts: i64) -> LedgerView {
        let o = self.outcome(t);
        let equity = self.equity.sum(o.pnl_usd);
        LedgerView {
            equity,
            fees_paid: self.fees_paid.sum(o.fee_usd.sum(o.slip)),
            n_trades: self.n_trades + 1,
            curve: last_items(self.curve.push((ts, in_steps(equity, 100))), CURVE_KEPT as int),
            open_sizing: None,
            ..self
        }
    }

    /// The ledger with a trade of the past sized and closed.
    pub open spec fn replayed(self, t: TradeView) -> LedgerView {
        self.opened(t.entry, t.slp).closed(t, t.exit_ts)
    }

    /// What is told of the trade `t` when it is closed.
    pub open spec fn close_fields(self, t: TradeView) -> Seq<(Seq<char>, JsonView)> {
        let s = self.size();
        let o = self.outcome(t);
        seq![
            ("side"@, JsonView::Text(engine::side_name(t.side))),
            ("session"@, JsonView::Text(t.session)),
            ("entry"@, JsonView::Number(t.entry)),
            ("sl"@, JsonView::Number(t.sl)),
            ("tp"@, JsonView::Number(t.tp)),
            ("exit"@, JsonView::Number(t.exit)),
            ("exit_type"@, JsonView::Text(t.exit_type)),
            ("rr"@, JsonView::Number(t.rr)),
            ("slp"@, JsonView::Number(t.slp)),
            ("pct"@, JsonView::Number(t.pct)),
            ("r"@, JsonView::Number(t.r)),
            ("entry_ts"@, JsonView::Whole(t.entry_ts as int)),
            ("exit_ts"@, JsonView::Whole(t.exit_ts as int)),
            ("bars_held"@, JsonView::Whole(t.bars_held as int)),
            ("trail_a"@, JsonView::Number(t.trail_a)),
            ("qty"@, JsonView::Number(s.qty)),
            ("notional_usd"@, JsonView::Number(s.notional_usd)),
            ("risk_usd"@, JsonView::Number(s.risk_usd)),
            ("entry_fee_usd"@, JsonView::Number(in_steps(o.entry_fee, 1_000_000))),
            ("exit_fee_usd"@, JsonView::Number(in_steps(o.exit_fee, 1_000_000))),
            ("fee_usd"@, JsonView::Number(in_steps(o.fee_usd, 1_000_000))),
            ("slip_usd"@, JsonView::Number(in_steps(o.slip, 1_000_000))),
            ("pnl_usd"@, JsonView::Number(in_steps(o.pnl_usd, 1_000_000))),
            ("net_r"@, JsonView::Number(in_steps(o.net_r, 10_000))),
            ("equity"@, JsonView::Number(in_steps(self.equity.sum(o.pnl_usd), 100))),
        ]
    }

    /// The balance as the dashboard reads it.
    pub open spec fn balance_fields(self, broker: Seq<char>, armed: bool) -> Seq<
        (Seq<char>, JsonView),
    > {
        seq![
            ("broker"@, JsonView::Text(broker)),
            ("equity"@, JsonView::Number(self.equity)),
            ("start"@, JsonView::Number(self.start)),
            ("n_trades"@, JsonView::Whole(self.n_trades as int)),
            ("unrealized"@, JsonView::Null),
            ("mirror_armed"@, JsonView::Bool(armed)),
            ("fees_paid"@, JsonView::Number(in_steps(self.fees_paid, 1_000_000))),
        ]
    }
}

/// A point of the equity curve as the dashboard reads it.
pub open spec fn point_fields(p: (i64, Double)) -> Seq<(Seq<char>, JsonView)> {
    seq![("ts"@, JsonView::Whole(p.0 as int)), ("eq"@, JsonView::Number(p.1))]
}

/// The points of the equity curve as the dashboard reads them.
pub open spec fn curve_items(curve: Seq<(i64, Double)>) -> Seq<JsonView> {
    curve.map_values(|p: (i64, Double)| JsonView::Object(point_fields(p)))
}

fn percent(amount: Double, pct: Double) -> (r: Double)
    ensures
        r == percent_of(amount, pct),
{
    amount.times(pct).over(Double::from_u64(100))
}

/// A number rounded to a multiple of `1 / steps`.
pub fn round_steps(x: Double, steps: u64) -> (r: Double)
    ensures
        r == in_steps(x, steps as int),
{
    let s: Double = Double::from_u64(steps);
    x.times(s).round().over(s)
}

fn round6(x: Double) -> (r: Double)
    ensures
        r == in_steps(x, 1_000_000),
{
    round_steps(x, 1_000_000)
}

/// Drops points from the front until at most the kept count is left.
fn cut_curve(curve: &mut Vec<(i64, Double)>)
    ensures
        final(curve)@ == last_items(old(curve)@, CURVE_KEPT as int),
{
    let n: usize = curve.len();
    if n > CURVE_KEPT {
        let tail: Vec<(i64, Double)> = curve.split_off(n - CURVE_KEPT);
        *curve = tail;
        assert(curve@ =~= old(curve)@.skip(n - CURVE_KEPT));
    }
}

impl Ledger {
    /// A ledger before any trade, its curve started now.
    pub fn new(start: Double, sizing: SizingCfg, fee: FeeModel) -> (r: Ledger)
        ensures
            exists|now: i64| r@ == LedgerView::fresh(start, sizing, fee, now),
    {
        let now: i64 = now_ts();
        Ledger::starting_at(start, sizing, fee, now)
    }

    /// A ledger before any trade, its curve started at the time `now`.
    pub fn starting_at(start: Double, sizing: SizingCfg, fee: FeeModel, now: i64) -> (r: Ledger)
        ensures
            r@ == LedgerView::fresh(start, sizing, fee, now),
    {
        let mut curve: Vec<(i64, Double)> = Vec::new();
        curve.push((now, start));
        assert(curve@ =~= seq![(now, start)]);
        Ledger {
            start,
            equity: start,
            n_trades: 0,
            curve,
            fees_paid: Double { bits: 0 },
            sizing,
            fee,
            open_sizing: None,
        }
    }

    /// Sizes a position and notes the size.
    pub fn on_open(&mut self, entry: Double, slp: Double) -> (r: Sizing)
        ensures
            r == old(self)@.sized(entry, slp),
            final(self)@ == old(self)@.opened(entry, slp),
    {
        let none: Double = Double { bits: 0 };
        let notional: Double = if self.sizing.legacy {
            self.sizing.position_usd
        } else {
            let risk: Double = percent(self.equity, self.sizing.risk_pct);
            let cap: Double = self.equity.times(self.sizing.leverage_cap);
            risk.over(slp.max(Double::from_ratio(1, 1_000_000_000))).min(cap).max(none)
        };
        let qty: Double = if none.lt(entry) {
            notional.over(entry)
        } else {
            none
        };
        let s: Sizing = Sizing { qty, notional_usd: notional, risk_usd: notional.times(slp) };
        self.open_sizing = Some(s);
        s
    }

    /// The size of the open position.
    fn noted_size(&self) -> (r: Sizing)
        ensures
            r == self@.size(),
    {
        match self.open_sizing {
            Some(s) => s,
            None => Sizing {
                qty: Double { bits: 0 },
                notional_usd: Double { bits: 0 },
                risk_usd: Double { bits: 0 },
            },
        }
    }

    /// What closing the trade `t` comes to.
    pub fn outcome_of(&self, t: &Trade) -> (r: Outcome)
        ensures
            r == self@.outcome(t@),
    {
        settle(self.fee, t, self.noted_size())
    }

    /// Books a closed trade and tells what it came to.
    pub fn on_close(&mut self, t: &Trade, ts: i64) -> (r: Json)
        requires
            old(self).n_trades < usize::MAX,
        ensures
            final(self)@ == old(self)@.closed(t@, ts),
            r@ == JsonView::Object(old(self)@.close_fields(t@)),
    {
        let s: Sizing = self.noted_size();
        let o: Outcome = self.outcome_of(t);
        self.open_sizing = None;
        self.equity = self.equity.plus(o.pnl_usd);
        self.fees_paid = self.fees_paid.plus(o.fee_usd.plus(o.slip));
        self.n_trades = self.n_trades + 1;
        let shown: Double = round_steps(self.equity, 100);
        self.curve.push((ts, shown));
        cut_curve(&mut self.curve);
        let f: Vec<(String, Json)> = close_json(t, s, &o, shown);
        assert(crate::json::fields_view(f@) =~= old(self)@.close_fields(t@));
        Json::Object(f)
    }

    /// Sizes and books a trade of the past.
    pub fn apply_warm(&mut self, t: &Trade) -> (r: Json)
        requires
            old(self).n_trades < usize::MAX,
        ensures
            final(self)@ == old(self)@.replayed(t@),
            r@ == JsonView::Object(old(self)@.opened(t.entry, t.slp).close_fields(t@)),
    {
        let _ = self.on_open(t.entry, t.slp);
        self.on_close(t, t.exit_ts)
    }

    /// The balance as the dashboard reads it.
    pub fn balance(&self, broker: &str, mirror_armed: bool) -> (r: Json)
        ensures
            r@ == JsonView::Object(self@.balance_fields(broker@, mirror_armed)),
    {
        let mut f: Vec<(String, Json)> = Vec::new();
        put(&mut f, "broker", text(broker));
        put(&mut f, "equity", Json::Number(self.equity));
        put(&mut f, "start", Json::Number(self.start));
        put(&mut f, "n_trades", Json::Uint(self.n_trades as u64));
        put(&mut f, "unrealized", Json::Null);
        put(&mut f, "mirror_armed", Json::Bool(mirror_armed));
        put(&mut f, "fees_paid", Json::Number(round6(self.fees_paid)));
        assert(crate::json::fields_view(f@) =~= self@.balance_fields(broker@, mirror_armed));
        Json::Object(f)
    }

    /// The equity curve as the dashboard reads it.
    pub fn equity_curve_json(&self) -> (r: Json)
        ensures
            r@ == JsonView::List(curve_items(self@.curve)),
    {
        let mut items: Vec<Json> = Vec::new();
        let mut i: usize = 0;
        let ghost all = curve_items(self@.curve);
        assert(all.take(0) =~= seq![]);
        while i < self.curve.len()
            invariant
                i <= self.curve@.len(),
                all == curve_items(self@.curve),
                crate::json::items_view(items@) == all.take(i as int),
            decreases self.curve@.len() - i,
        {
            let p: (i64, Double) = self.curve[i];
            let mut f: Vec<(String, Json)> = Vec::new();
            put(&mut f, "ts", Json::Int(p.0));
            put(&mut f, "eq", Json::Number(p.1));
            assert(crate::json::fields_view(f@) =~= point_fields(p));
            assert(all.take(i + 1) =~= all.take(i as int).push(all[i as int]));
            put_item(&mut items, Json::Object(f));
            i = i + 1;
        }
        assert(all.take(i as int) =~= all);
        Json::List(items)
    }
}

/// What closing the trade `t` of the size `s` comes to.
fn settle(fee: FeeModel, t: &Trade, s: Sizing) -> (r: Outcome)
    ensures
        r == fee.outcome(t@, s),
{
    let none: Double = Double { bits: 0 };
    let entry_notional: Double = s.qty.times(t.entry);
    let exit_notional: Double = s.qty.times(t.exit);
    let entry_fee: Double = percent(entry_notional, fee.maker_pct);
    let exit_fee: Double = percent(exit_notional, fee.taker_pct);
    let slip: Double = if same(t.exit_type.as_str(), "SL") || same(
        t.exit_type.as_str(),
        "MANUAL",
    ) {
        percent(exit_notional, fee.slip_pct)
    } else {
        none
    };
    let dir: Double = Double::from_i64(t.side as i64);
    let gross: Double = s.qty.times(t.exit.minus(t.entry)).times(dir);
    let pnl_usd: Double = gross.minus(entry_fee).minus(exit_fee).minus(slip);
    Outcome {
        entry_fee,
        exit_fee,
        slip,
        fee_usd: entry_fee.plus(exit_fee),
        pnl_usd,
        net_r: if none.lt(s.risk_usd) {
            pnl_usd.over(s.risk_usd)
        } else {
            none
        },
    }
}

fn close_json(t: &Trade, s: Sizing, o: &Outcome, equity: Double) -> (f: Vec<(String, Json)>)
    ensures
        crate::json::fields_view(f@) == seq![
            ("side"@, JsonView::Text(engine::side_name(t.side))),
            ("session"@, JsonView::Text(t.session@)),
            ("entry"@, JsonView::Number(t.entry)),
            ("sl"@, JsonView::Number(t.sl)),
            ("tp"@, JsonView::Number(t.tp)),
            ("exit"@, JsonView::Number(t.exit)),
            ("exit_type"@, JsonView::Text(t.exit_type@)),
            ("rr"@, JsonView::Number(t.rr)),
            ("slp"@, JsonView::Number(t.slp)),
            ("pct"@, JsonView::Number(t.pct)),
            ("r"@, JsonView::Number(t.r)),
            ("entry_ts"@, JsonView::Whole(t.entry_ts as int)),
            ("exit_ts"@, JsonView::Whole(t.exit_ts as int)),
            ("bars_held"@, JsonView::Whole(t.bars_held as int)),
            ("trail_a"@, JsonView::Number(t.trail_a)),
            ("qty"@, JsonView::Number(s.qty)),
            ("notional_usd"@, JsonView::Number(s.notional_usd)),
            ("risk_usd"@, JsonView::Number(s.risk_usd)),
            ("entry_fee_usd"@, JsonView::Number(in_steps(o.entry_fee, 1_000_000))),
            ("exit_fee_usd"@, JsonView::Number(in_steps(o.exit_fee, 1_000_000))),
            ("fee_usd"@, JsonView::Number(in_steps(o.fee_usd, 1_000_000))),
            ("slip_usd"@, JsonView::Number(in_steps(o.slip, 1_000_000))),
            ("pnl_usd"@, JsonView::Number(in_steps(o.pnl_usd, 1_000_000))),
            ("net_r"@, JsonView::Number(in_steps(o.net_r, 10_000))),
            ("equity"@, JsonView::Number(equity)),
        ],
{
    let mut f: Vec<(String, Json)> = Vec::new();
    put(&mut f, "side", text(side_text(t.side)));
    put(&mut f, "session", text(t.session.as_str()));
    put(&mut f, "entry", Json::Number(t.entry));
    put(&mut f, "sl", Json::Number(t.sl));
    put(&mut f, "tp", Json::Number(t.tp));
    put(&mut f, "exit", Json::Number(t.exit));
    put(&mut f, "exit_type", text(t.exit_type.as_str()));
    put(&mut f, "rr", Json::Number(t.rr));
    put(&mut f, "slp", Json::Number(t.slp));
    put(&mut f, "pct", Json::Number(t.pct));
    put(&mut f, "r", Json::Number(t.r));
    put(&mut f, "entry_ts", Json::Int(t.entry_ts));
    put(&mut f, "exit_ts", Json::Int(t.exit_ts));
    put(&mut f, "bars_held", Json::Int(t.bars_held));
    put(&mut f, "trail_a", Json::Number(t.trail_a));
    put(&mut f, "qty", Json::Number(s.qty));
    put(&mut f, "notional_usd", Json::Number(s.notional_usd));
    put(&mut f, "risk_usd", Json::Number(s.risk_usd));
    put(&mut f, "entry_fee_usd", Json::Number(round6(o.entry_fee)));
    put(&mut f, "exit_fee_usd", Json::Number(round6(o.exit_fee)));
    put(&mut f, "fee_usd", Json::Number(round6(o.fee_usd)));
    put(&mut f, "slip_usd", Json::Number(round6(o.slip)));
    put(&mut f, "pnl_usd", Json::Number(round6(o.pnl_usd)));
    put(&mut f, "net_r", Json::Number(round_steps(o.net_r, 10_000)));
    put(&mut f, "equity", Json::Number(equity));
    f
}

// ---------------------------------------------------------------------------
// Laws
// ---------------------------------------------------------------------------

/// The notional of a position never goes beyond the leverage cap, where the cap
/// is a number that is not negative.
pub proof fn law_notional_capped(l: LedgerView, slp: Double)
    requires
        !l.sizing.legacy,
        zero().at_most(l.equity.product(l.sizing.leverage_cap)),
    ensures
        l.notional(slp).at_most(l.equity.product(l.sizing.leverage_cap)),
        zero().at_most(l.notional(slp)),
{
}

/// The equity curve stays within its bound and ends in the newest equity.
pub proof fn law_curve_bounded(l: LedgerView, t: TradeView, ts: i64)
    requires
        l.curve.len() <= CURVE_KEPT,
    ensures
        l.closed(t, ts).curve.len() <= CURVE_KEPT,
        l.closed(t, ts).curve.last() == (ts, in_steps(l.closed(t, ts).equity, 100)),
{
}

/// Closing a trade counts it and forgets the size of the position; the equity
/// that the ledger started with stays.
pub proof fn law_close_forgets_the_size(l: LedgerView, t: TradeView, ts: i64)
    ensures
        l.closed(t, ts).open_sizing is None,
        l.closed(t, ts).n_trades == l.n_trades + 1,
        l.closed(t, ts).start == l.start,
{
}

/// Sizing a position again changes nothing: the size rests on the equity alone.
pub proof fn law_sizing_is_stable(l: LedgerView, entry: Double, slp: Double)
    ensures
        l.opened(entry, slp).opened(entry, slp) == l.opened(entry, slp),
{
    assert(l.opened(entry, slp).sized(entry, slp) == l.sized(entry, slp));
}

/// Replaying a trade of the past does not depend on the size noted before.
pub proof fn law_replay_sizes_anew(l: LedgerView, t: TradeView, noted: Option<Sizing>)
    ensures
        (LedgerView { open_sizing: noted, ..l }).replayed(t) == l.replayed(t),
{
}

} // verus!
