use live_trader::double::Double;
use live_trader::engine::Trade;
use live_trader::json::Json;
use live_trader::ledger::{FeeModel, Ledger, SizingCfg};

fn d(x: f64) -> Double {
    Double { bits: x.to_bits() }
}

fn f(x: Double) -> f64 {
    f64::from_bits(x.bits)
}

fn sizing() -> SizingCfg {
    SizingCfg { legacy: false, position_usd: d(100.0), risk_pct: d(0.5), leverage_cap: d(3.0) }
}

fn fees(slip: f64) -> FeeModel {
    FeeModel { maker_pct: d(0.02), taker_pct: d(0.055), slip_pct: d(slip) }
}

fn trade(side: i8, entry: f64, exit: f64, exit_type: &str, slp: f64) -> Trade {
    Trade {
        session: "2026-09-07".to_string(),
        side,
        entry: d(entry),
        sl: d(entry * (1.0 - slp)),
        tp: d(entry * (1.0 + 2.0 * slp)),
        exit: d(exit),
        exit_type: exit_type.to_string(),
        rr: d(2.0),
        slp: d(slp),
        pct: d((exit / entry - 1.0) * 100.0),
        r: d(1.0),
        entry_ts: 1000,
        exit_ts: 2000,
        bars_held: 3,
        trail_a: d(0.0),
    }
}

fn number(j: &Json, name: &str) -> f64 {
    f(j.get(name).unwrap().as_double().unwrap())
}

#[test]
fn positions_are_sized_by_risk_within_the_cap() {
    let mut l = Ledger::starting_at(d(10000.0), sizing(), fees(0.0), 7);
    // risk: 50 USDT over a stop of half a percent
    let s = l.on_open(d(100.0), d(0.005));
    assert_eq!(f(s.notional_usd), (10000.0 * 0.5 / 100.0) / 0.005);
    assert_eq!(f(s.qty), f(s.notional_usd) / 100.0);
    assert_eq!(f(s.risk_usd), f(s.notional_usd) * 0.005);
    // a tight stop is held by the cap
    let s = l.on_open(d(100.0), d(0.0005));
    assert_eq!(f(s.notional_usd), 30000.0);
    // no price, no quantity
    assert_eq!(f(l.on_open(d(0.0), d(0.005)).qty), 0.0);
    let mut cfg = sizing();
    cfg.legacy = true;
    let mut fixed = Ledger::starting_at(d(10000.0), cfg, fees(0.0), 7);
    assert_eq!(f(fixed.on_open(d(50.0), d(0.001)).notional_usd), 100.0);
}

#[test]
fn a_trade_pays_fees_and_moves_the_equity() {
    let mut l = Ledger::starting_at(d(10000.0), sizing(), fees(0.1), 7);
    let s = l.on_open(d(100.0), d(0.005));
    let q = f(s.qty);
    let t = trade(1, 100.0, 101.0, "TP", 0.005);
    let told = l.on_close(&t, 2000);
    let entry_fee = q * 100.0 * 0.02 / 100.0;
    let exit_fee = q * 101.0 * 0.055 / 100.0;
    let pnl = q * (101.0 - 100.0) * 1.0 - entry_fee - exit_fee - 0.0;
    assert_eq!(f(l.equity), 10000.0 + pnl);
    assert_eq!(f(l.fees_paid), entry_fee + exit_fee);
    assert_eq!(l.n_trades, 1);
    assert_eq!(number(&told, "pnl_usd"), (pnl * 1e6).round() / 1e6);
    assert_eq!(number(&told, "slip_usd"), 0.0);
    assert_eq!(number(&told, "net_r"), (pnl / f(s.risk_usd) * 10000.0).round() / 10000.0);
    assert_eq!(number(&told, "equity"), ((10000.0 + pnl) * 100.0).round() / 100.0);
    assert_eq!(told.get("exit_type").unwrap().as_str(), Some("TP"));
    assert_eq!(l.curve.len(), 2);
    assert_eq!(l.curve[1].0, 2000);
    assert!(l.open_sizing.is_none());
}

#[test]
fn stops_and_closes_by_hand_slip() {
    for (kind, slips) in [("SL", true), ("MANUAL", true), ("TP", false), ("EOS", false)] {
        let mut l = Ledger::starting_at(d(10000.0), sizing(), fees(0.1), 7);
        let q = f(l.on_open(d(100.0), d(0.005)).qty);
        let told = l.on_close(&trade(-1, 100.0, 100.5, kind, 0.005), 2000);
        let slip = if slips { q * 100.5 * 0.1 / 100.0 } else { 0.0 };
        assert_eq!(number(&told, "slip_usd"), (slip * 1e6).round() / 1e6, "{kind}");
        let gross = q * (100.5 - 100.0) * -1.0;
        let pnl = gross - q * 100.0 * 0.02 / 100.0 - q * 100.5 * 0.055 / 100.0 - slip;
        assert_eq!(f(l.equity), 10000.0 + pnl, "{kind}");
    }
}

#[test]
fn a_replayed_trade_is_sized_anew() {
    let mut a = Ledger::starting_at(d(10000.0), sizing(), fees(0.0), 7);
    let mut b = Ledger::starting_at(d(10000.0), sizing(), fees(0.0), 7);
    b.on_open(d(1.0), d(0.001));
    let t = trade(1, 100.0, 99.5, "SL", 0.005);
    let x = a.apply_warm(&t);
    let y = b.apply_warm(&t);
    assert_eq!(a.equity, b.equity);
    assert_eq!(format!("{x:?}"), format!("{y:?}"));
    assert_eq!(a.curve[1].0, 2000);
    // a trade that was never sized costs nothing
    let before = a.equity;
    let told = a.on_close(&t, 3000);
    assert_eq!(a.equity, before);
    assert_eq!(number(&told, "qty"), 0.0);
    assert_eq!(number(&told, "net_r"), 0.0);
}

#[test]
fn the_curve_keeps_its_last_points() {
    let mut l = Ledger::starting_at(d(10000.0), sizing(), fees(0.0), 7);
    for i in 0..500 {
        let mut t = trade(1, 100.0, 100.0, "TP", 0.005);
        t.exit_ts = i;
        l.apply_warm(&t);
    }
    assert_eq!(l.curve.len(), 400);
    assert_eq!(l.curve[399].0, 499);
    assert_eq!(l.n_trades, 500);
    let j = l.equity_curve_json();
    assert_eq!(j.as_array().unwrap().len(), 400);
    assert_eq!(j.item(0).unwrap().get("ts").unwrap().as_i64(), Some(100));
}

#[test]
fn the_balance_is_told() {
    let l = Ledger::new(d(10000.0), sizing(), fees(0.0));
    assert!(l.curve[0].0 > 1_500_000_000);
    let b = l.balance("paper", true);
    assert_eq!(b.get("broker").unwrap().as_str(), Some("paper"));
    assert_eq!(number(&b, "equity"), 10000.0);
    assert_eq!(b.get("n_trades").unwrap().as_u64(), Some(0));
    assert!(matches!(b.get("mirror_armed"), Some(Json::Bool(true))));
    assert!(matches!(b.get("unrealized"), Some(Json::Null)));
}
