use live_trader::config::Config;
use live_trader::double::Double;
use live_trader::feed::{Fetch, RestFeed, Step, Venue};
use live_trader::json::Json;
use live_trader::profile::Bar;
use live_trader::replay::{parse_csv, replay_cfg, replayed, summarize};

fn d(x: f64) -> Double {
    Double { bits: x.to_bits() }
}

fn f(x: Double) -> f64 {
    f64::from_bits(x.bits)
}

fn feed(vars: &[(&str, &str)]) -> RestFeed {
    let v: Vec<(String, String)> =
        vars.iter().map(|(k, x)| (k.to_string(), x.to_string())).collect();
    RestFeed::new(&Config::from_env(&v).unwrap())
}

fn t(s: &str) -> Json {
    Json::Text(s.to_string())
}

fn obj(fields: Vec<(&str, Json)>) -> Json {
    Json::Object(fields.into_iter().map(|(k, v)| (k.to_string(), v)).collect())
}

fn bybit_row(ts: &str, c: &str) -> Json {
    Json::List(vec![t(ts), t("1"), t("3"), t("0.5"), t(c), t("12.5"), t("99")])
}

#[test]
fn questions_name_the_market() {
    let b = feed(&[("DATA_VENUE", "bybit"), ("SYMBOL", "XAUUSDT")]);
    assert!(b.venue == Venue::Bybit);
    assert_eq!(
        b.klines_url(5000),
        "https://api.bybit.com/v5/market/kline?category=linear&symbol=XAUUSDT&interval=15&limit=1000"
    );
    assert_eq!(b.ticker_url(), "https://api.bybit.com/v5/market/tickers?category=linear&symbol=XAUUSDT");
    let s = feed(&[]);
    assert_eq!(
        s.klines_url(3),
        "https://data-api.binance.vision/api/v3/klines?symbol=PAXGUSDT&interval=15m&limit=3"
    );
    assert_eq!(s.ticker_url(), "https://data-api.binance.vision/api/v3/ticker/price?symbol=PAXGUSDT");
    assert_eq!(s.venue_label(), "binance-spot");
    let u = feed(&[("VENUE", "futures")]);
    assert_eq!(
        u.klines_url(7),
        "https://fapi.binance.com/fapi/v1/klines?symbol=PAXGUSDT&interval=15m&limit=7"
    );
    assert_eq!(u.venue_label(), "binance-futures");
}

#[test]
fn closed_and_new_bars_are_taken() {
    let mut b = feed(&[("DATA_VENUE", "bybit")]);
    let answer = obj(vec![
        ("retCode", Json::Int(0)),
        (
            "result",
            obj(vec![(
                "list",
                Json::List(vec![
                    bybit_row("2700000", "2"),
                    bybit_row("1800000", "1.75"),
                    bybit_row("900000", "1.5"),
                    Json::List(vec![t("0")]),
                    Json::Null,
                ]),
            )]),
        ),
    ]);
    let bars = b.read_klines(&answer, 2_700_000).unwrap();
    let seen: Vec<(i64, f64, f64)> = bars.iter().map(|x| (x.ts, f(x.c), f(x.v))).collect();
    assert_eq!(seen, vec![(900, 1.5, 12.5), (1800, 1.75, 12.5)]);
    b.last = Some(900);
    assert_eq!(b.read_klines(&answer, 3_600_000).unwrap().len(), 2);
    let bad = obj(vec![("retCode", Json::Int(-7)), ("retMsg", t("no"))]);
    assert_eq!(b.read_klines(&bad, 0).unwrap_err(), "bybit retCode -7: no");
    assert!(b.read_klines(&Json::Null, 0).unwrap().is_empty());
}

#[test]
fn trades_stand_for_volume_on_binance() {
    let s = feed(&[]);
    let row = |ts: i64| {
        Json::List(vec![
            Json::Int(ts),
            t("1"),
            t("2"),
            t("0.5"),
            Json::Number(d(1.25)),
            t("10"),
            Json::Int(0),
            t("0"),
            Json::Uint(42),
        ])
    };
    let bars = s.read_klines(&Json::List(vec![row(900_999), row(0)]), 5_000_000).unwrap();
    assert_eq!(bars.len(), 2);
    assert_eq!(bars[0].ts, 0);
    assert_eq!(bars[1].ts, 900);
    assert_eq!(f(bars[1].v), 42.0);
    assert_eq!(f(bars[1].c), 1.25);
    assert!(s.read_klines(&obj(vec![]), 0).unwrap().is_empty());
}

fn bar(ts: i64) -> Bar {
    Bar { ts, o: d(1.0), h: d(2.0), l: d(0.5), c: d(1.5), v: d(1.0) }
}

#[test]
fn polls_go_on_from_the_last_bar() {
    let mut s = feed(&[]);
    assert_eq!(s.bootstrap(Err("down".to_string()), 5).unwrap_err(), "down");
    assert_eq!(s.health.polls, 0);
    let got = s.bootstrap(Ok(vec![bar(900), bar(1800)]), 5).unwrap();
    assert_eq!(got.len(), 2);
    assert_eq!(s.last, Some(1800));
    assert_eq!(s.health.polls, 1);
    assert_eq!(s.health.last_ok_ts, Some(5));
    assert_eq!(s.poll_limit(), 3);
    assert_eq!(s.poll(Ok(vec![bar(2700)]), 6).len(), 1);
    assert_eq!(s.last, Some(2700));
    assert!(s.poll(Ok(vec![]), 7).is_empty());
    assert_eq!(s.last, Some(2700));
    let many: Vec<Bar> = (0..30_000).map(|i| bar(3600 + i * 900)).collect();
    s.poll(Ok(many), 8);
    assert_eq!(s.bars.len(), 30_000);
    assert_eq!(s.bars[0].ts, 3600);
    assert_eq!(s.poll_limit(), 20);
}

#[test]
fn failures_are_counted_until_something_comes() {
    let mut s = feed(&[]);
    for i in 1..=5u64 {
        assert!(s.poll(Err("down".to_string()), 9).is_empty());
        assert_eq!(s.health.consecutive_fails, i);
        let healthy = matches!(s.health.to_json().get("healthy"), Some(Json::Bool(true)));
        assert_eq!(healthy, i < 5);
    }
    let p = s.poll_ticker(Ok(obj(vec![("price", t("4430.25"))])), 11);
    assert_eq!(p.map(f), Some(4430.25));
    assert_eq!(s.last_price.map(f), Some(4430.25));
    assert_eq!(s.health.consecutive_fails, 0);
    assert_eq!(s.health.fails, 5);
    assert_eq!(s.health.last_ok_ts, Some(11));
    assert!(s.poll_ticker(Ok(obj(vec![])), 12).is_none());
    assert_eq!(s.health.last_error.as_deref(), Some("ticker: no lastPrice"));
    assert!(s.poll_ticker(Err("x".to_string()), 12).is_none());
    assert_eq!(s.health.last_error.as_deref(), Some("x"));
    let mut b = feed(&[("DATA_VENUE", "bybit")]);
    let j = obj(vec![(
        "result",
        obj(vec![("list", Json::List(vec![obj(vec![("lastPrice", t("2.5"))])]))]),
    )]);
    assert_eq!(b.poll_ticker(Ok(j), 1).map(f), Some(2.5));
}

#[test]
fn a_fetch_pauses_longer_each_time() {
    let mut x = Fetch::new(3);
    assert_eq!(x.on_failure(), Some(1500));
    assert_eq!(x.on_failure(), Some(3000));
    assert_eq!(x.on_failure(), None);
    assert_eq!(Fetch::new(0).on_failure(), None);
    assert_eq!(Fetch::new(1).on_failure(), None);
}

#[test]
fn a_fetch_ends_with_an_answer() {
    let b = feed(&[("DATA_VENUE", "bybit")]);
    let mut x = Fetch::new(2);
    assert!(matches!(b.fetch_klines(&mut x, Err("a".to_string()), 0), Step::Again(1500)));
    match b.fetch_klines(&mut x, Err("b".to_string()), 0) {
        Step::Done(Err(e)) => assert_eq!(e, "b"),
        other => panic!("{other:?}"),
    }
    let mut y = Fetch::new(6);
    let refusal = obj(vec![("retCode", Json::Int(10001))]);
    match b.fetch_klines(&mut y, Ok(refusal), 0) {
        Step::Done(Err(e)) => assert_eq!(e, "bybit retCode 10001: "),
        other => panic!("{other:?}"),
    }
    let answer = obj(vec![(
        "result",
        obj(vec![("list", Json::List(vec![bybit_row("900000", "1.5")]))]),
    )]);
    match b.fetch_klines(&mut y, Ok(answer), 1_800_000) {
        Step::Done(Ok(bars)) => assert_eq!(bars.len(), 1),
        other => panic!("{other:?}"),
    }
}

#[test]
fn a_recording_is_read() {
    let bars = parse_csv("ts,o,h,l,c,v\r\n1800000,1,2,0.5,1.5,7\r\n\r\n900999.9,1,x,,\n0\r");
    assert_eq!(bars.len(), 3);
    assert_eq!(bars[0].ts, 0);
    assert_eq!(bars[1].ts, 900);
    assert_eq!((f(bars[1].o), f(bars[1].h), f(bars[1].v)), (1.0, 0.0, 0.0));
    assert_eq!(bars[2].ts, 1800);
    assert_eq!(f(bars[2].v), 7.0);
    assert!(parse_csv("").is_empty());
    assert!(parse_csv("only a heading").is_empty());
}

#[test]
fn a_replay_is_summed_up() {
    let mut bars: Vec<Bar> = Vec::new();
    let t0 = live_trader::calendar::days_from_civil(2026, 9, 6) * 86400 + 22 * 3600;
    for i in 0..96 {
        let b = Bar { ts: t0 + i * 900, o: d(100.0), h: d(100.2), l: d(99.8), c: d(100.0), v: d(1.0) };
        bars.push(b);
    }
    let t1 = t0 + 86400;
    bars.push(Bar { ts: t1, o: d(100.0), h: d(100.05), l: d(99.95), c: d(100.0), v: d(1.0) });
    bars.push(Bar { ts: t1 + 900, o: d(100.0), h: d(100.0), l: d(90.0), c: d(95.0), v: d(1.0) });
    let s = replayed(&bars, replay_cfg(true));
    let sum = summarize(&s.trades);
    assert_eq!((sum.trades, sum.sl, sum.tp, sum.eos, sum.wins), (1, 1, 0, 0, 0));
    let lines = sum.report(s.net());
    assert_eq!(lines[0], "trades      : 1");
    assert_eq!(lines[1], "win rate    : 0.0%");
    assert_eq!(lines[2], format!("net         : {:+.2}%", f(s.net())));
    assert_eq!(lines[3], "exit mix    : SL 1 / TP 0 / EOS 0");
    let none = summarize(&vec![]);
    assert_eq!(none.report(d(0.0))[2], "net         : +0.00%");
    assert_eq!(none.report(d(0.0))[1], "win rate    : 0.0%");
}
