use live_trader::config::{banner, parse_ladder, Config, Shown, BINANCE_FUT_MAINNET, BINANCE_FUT_TESTNET, BINANCE_SPOT_MAINNET, BINANCE_SPOT_TESTNET};
use live_trader::double::Double;

fn f(x: Double) -> f64 {
    f64::from_bits(x.bits)
}

fn cfg(vars: &[(&str, &str)]) -> Config {
    let v: Vec<(String, String)> =
        vars.iter().map(|(k, x)| (k.to_string(), x.to_string())).collect();
    Config::from_env(&v).unwrap()
}

fn pairs(l: &[(Double, Double)]) -> Vec<(f64, f64)> {
    l.iter().map(|&(a, b)| (f(a), f(b))).collect()
}

#[test]
fn an_empty_environment_has_defaults() {
    let c = cfg(&[]);
    assert_eq!(c.mode, "auto");
    assert_eq!(c.venue, "spot");
    assert_eq!(c.data_venue, "auto");
    assert_eq!(c.symbol, "PAXGUSDT");
    assert!(c.sl_touch && !c.legacy_sizing && c.skip_hour0 && c.trail_on && c.same_bar && c.dry_run);
    assert_eq!(f(c.fee_maker_pct), 0.02);
    assert_eq!(f(c.fee_taker_pct), 0.055);
    assert_eq!(f(c.sl_slip_pct), 0.0);
    assert_eq!(f(c.position_usd), 100.0);
    assert_eq!(f(c.risk_pct), 0.5);
    assert_eq!(f(c.leverage_cap), 3.0);
    assert_eq!(f(c.rr), 2.0);
    assert_eq!(f(c.poll_s), 5.0);
    assert_eq!(f(c.tick_s), 1.0);
    assert_eq!(c.port, 8765);
    assert_eq!(c.host, "0.0.0.0");
    assert_eq!(f(c.paper_start_usdt), 10000.0);
    assert_eq!(c.bybit_base, "https://api.bybit.com");
    assert_eq!(c.feed, "rest");
    assert_eq!(pairs(&c.ladder), vec![(0.6, 0.1), (0.75, 0.4), (0.9, 0.7)]);
    assert_eq!(c.resolved_mode(), "paper");
    assert!(!c.tradable());
}

#[test]
fn variables_are_taken() {
    let c = cfg(&[
        ("SYMBOL", "xauusdt"),
        ("VENUE", "Futures"),
        ("SL_MODE", "Close"),
        ("RR", "1.5"),
        ("RISK_PCT", "abc"),
        ("SKIP_HOUR0", " No "),
        ("LEGACY_SIZING", "ON"),
        ("PORT", "70000"),
        ("HOST", ""),
        ("BYBIT_BASE", "http://127.0.0.1:8791//"),
        ("TRAIL_LADDER", "0.9:0.7, x:1, 0.5 : 0.2 ,,0.5:0.3"),
    ]);
    assert_eq!(c.symbol, "XAUUSDT");
    assert_eq!(c.venue, "futures");
    assert!(!c.sl_touch && !c.skip_hour0 && c.legacy_sizing);
    assert_eq!(f(c.rr), 1.5);
    assert_eq!(f(c.risk_pct), 0.5);
    assert_eq!(c.port, 8765);
    assert_eq!(c.host, "0.0.0.0");
    assert_eq!(c.bybit_base, "http://127.0.0.1:8791");
    assert_eq!(pairs(&c.ladder), vec![(0.5, 0.2), (0.5, 0.3), (0.9, 0.7)]);
    assert_eq!(c.sl_mode(), "close");
    let c2 = cfg(&[("SYMBOL", "xé"), ("VENUE", "FUTÜRES")]);
    assert_eq!((c2.symbol.as_str(), c2.venue.as_str()), ("XÉ", "futüres"));
    let s = c.strategy_cfg();
    assert_eq!(f(s.rr), 1.5);
    assert_eq!(s.ladder.len(), 3);
    assert!(!s.sl_touch && s.same_bar_exits);
}

#[test]
fn a_ladder_without_order_is_refused() {
    assert!(parse_ladder("nan:1,0.5:1").is_none());
    assert_eq!(parse_ladder("nan:1").unwrap().len(), 1);
    assert_eq!(parse_ladder("").unwrap().len(), 3);
    let v = vec![("TRAIL_LADDER".to_string(), "0.5:1,nan:1".to_string())];
    assert!(Config::from_env(&v).is_none());
}

#[test]
fn the_mode_is_resolved() {
    let ack = ("BINANCE_LIVE_ACK", "yes");
    assert_eq!(cfg(&[("MODE", "LIVE"), ack]).resolved_mode(), "live");
    assert_eq!(cfg(&[("MODE", "live")]).resolved_mode(), "paper");
    assert_eq!(cfg(&[("MODE", "live"), ("BINANCE_LIVE_ACK", "y")]).resolved_mode(), "paper");
    assert_eq!(cfg(&[("MODE", "live"), ("BINANCE_TESTNET", "1")]).resolved_mode(), "testnet");
    assert_eq!(cfg(&[("BINANCE_TESTNET", "1")]).resolved_mode(), "testnet");
    assert_eq!(cfg(&[("BINANCE_TESTNET_API_KEY", "k")]).resolved_mode(), "testnet");
    let keys = [("BINANCE_API_KEY", "k"), ("BINANCE_API_SECRET", "s")];
    assert_eq!(cfg(&keys).resolved_mode(), "paper");
    let c = cfg(&[keys[0], keys[1], ("BINANCE_LIVE_ACK", "Yes")]);
    assert_eq!(c.resolved_mode(), "live");
    assert!(!c.tradable());
    assert_eq!(c.display_mode(), "live (dry-run)");
    assert_eq!(c.order_base(), BINANCE_SPOT_MAINNET);
    let c = cfg(&[keys[0], keys[1], ("BINANCE_LIVE_ACK", "yes"), ("BINANCE_DRY_RUN", "0")]);
    assert!(c.tradable());
    assert_eq!(c.display_mode(), "live");
    let c = cfg(&[("MODE", "paper"), ("BINANCE_DRY_RUN", "0")]);
    assert!(!c.tradable());
    assert_eq!(c.order_base(), BINANCE_SPOT_TESTNET);
    let c = cfg(&[("VENUE", "futures")]);
    assert_eq!(c.order_base(), BINANCE_FUT_TESTNET);
    assert_eq!(cfg(&[("VENUE", "futures"), ("MODE", "live"), ack]).order_base(), BINANCE_FUT_MAINNET);
    assert_eq!(cfg(&[("VENUE", "futures"), ("MODE", "live")]).order_base(), BINANCE_FUT_TESTNET);
    // the keys of the test network go before the others
    let c = cfg(&[keys[0], keys[1], ("BINANCE_TESTNET_API_KEY", "t")]);
    assert_eq!((c.api_key.as_str(), c.api_secret.as_str()), ("t", "s"));
}

#[test]
fn only_a_zero_ends_the_dry_run() {
    for v in ["0", " 0\t"] {
        let c = cfg(&[("MODE", "testnet"), ("BINANCE_DRY_RUN", v)]);
        assert!(!c.dry_run && c.tradable(), "{v:?}");
    }
    for v in ["", "y", "1", "no", "false", "off", "00", "yes"] {
        let c = cfg(&[("MODE", "testnet"), ("BINANCE_DRY_RUN", v)]);
        assert!(c.dry_run && !c.tradable(), "{v:?}");
    }
    assert!(cfg(&[("MODE", "testnet")]).dry_run);
}

#[test]
fn the_source_is_resolved() {
    let c = cfg(&[("DATA_VENUE", "bybit"), ("SYMBOL", "X")]);
    assert_eq!(c.resolved_data_venue(), "bybit");
    assert_eq!(c.source_label(), "X live via Bybit public REST klines (15m, poll)");
    assert_eq!(cfg(&[("VENUE", "futures")]).resolved_data_venue(), "futures");
    let c = cfg(&[("SYMBOL", "X")]);
    assert_eq!(c.source_label(), "X live via Binance spot REST klines (15m, poll)");
}

#[test]
fn the_banner_tells_the_settings() {
    let shown = Shown {
        rr: "2".to_string(),
        ladder: "[]".to_string(),
        position_usd: "100".to_string(),
        poll_s: "5".to_string(),
        tick_s: "1".to_string(),
    };
    let lines = banner(&cfg(&[]), &shown);
    assert_eq!(lines.len(), 9);
    assert_eq!(lines[1], "  \u{1f9fe} FRVP live trader v2 (Rust)   mode = PAPER");
    assert_eq!(
        lines[5],
        "     fills    : SL_MODE=touch  fees maker/taker=0.020/0.055%  slip=0.000%"
    );
    assert_eq!(lines[6], "     sizing   : risk 0.50% of equity, notional cap 3.0x equity");
    assert_eq!(lines[7], "     runtime  : http://0.0.0.0:8765  poll=5s tick=1s");
    let live = cfg(&[
        ("MODE", "live"),
        ("BINANCE_LIVE_ACK", "yes"),
        ("VENUE", "futures"),
        ("BINANCE_DRY_RUN", "0"),
        ("FEED", "ws"),
        ("LEGACY_SIZING", "1"),
    ]);
    let lines = banner(&live, &shown);
    assert_eq!(lines.len(), 11);
    assert_eq!(
        lines[3],
        "     orders   -> https://fapi.binance.com (venue=futures, dry-run=false)"
    );
    assert_eq!(lines[6], "     sizing   : legacy fixed 100 USDT notional");
    assert!(lines[7].starts_with("     note     : FEED=ws requested"));
    assert!(lines[9].contains("LIVE REAL MONEY"));
}
