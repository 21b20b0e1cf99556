use live_trader::broker::{round_to, Broker, Note};
use live_trader::config::Config;
use live_trader::double::Double;
use live_trader::engine::{Event, Strategy, Trade};
use live_trader::errand::{Act, Errand, Reply, Work};
use live_trader::feed::RestFeed;
use live_trader::json::Json;
use live_trader::orders::{
    escape, hmac_sha256_hex, signed_body, status_error, to_hex, urlencode, Order, RestCli, Side,
};
use live_trader::profile::Bar;
use live_trader::service::{
    boot_health, boot_outcome, poll_seconds, publish_state, tick_json, tick_seconds, Desk,
};

fn d(x: f64) -> Double {
    Double { bits: x.to_bits() }
}

fn f(x: Double) -> f64 {
    f64::from_bits(x.bits)
}

fn cfg(vars: &[(&str, &str)]) -> Config {
    let v: Vec<(String, String)> =
        vars.iter().map(|(k, x)| (k.to_string(), x.to_string())).collect();
    Config::from_env(&v).unwrap()
}

fn t(s: &str) -> Json {
    Json::Text(s.to_string())
}

fn obj(fields: Vec<(&str, Json)>) -> Json {
    Json::Object(fields.into_iter().map(|(k, v)| (k.to_string(), v)).collect())
}

fn trade(entry: f64, exit: f64, kind: &str) -> Trade {
    Trade {
        session: "2026-09-07".to_string(),
        side: 1,
        entry: d(entry),
        sl: d(entry * 0.995),
        tp: d(entry * 1.01),
        exit: d(exit),
        exit_type: kind.to_string(),
        rr: d(2.0),
        slp: d(0.005),
        pct: d((exit / entry - 1.0) * 100.0),
        r: d(1.0),
        entry_ts: 1000,
        exit_ts: 2000,
        bars_held: 3,
        trail_a: d(0.0),
    }
}

#[test]
fn queries_are_escaped() {
    assert_eq!(escape("aZ09-_.~"), "aZ09-_.~");
    assert_eq!(escape("a b&c=d/é"), "a%20b%26c%3Dd%2F%C3%A9");
    let p = vec![("a".to_string(), "1 2".to_string()), ("b".to_string(), "".to_string())];
    assert_eq!(urlencode(&p), "a=1%202&b=");
    assert_eq!(urlencode(&vec![]), "");
    assert_eq!(to_hex(&[0, 15, 171, 255]), "000fabff");
    assert_eq!(signed_body("a=1", "ff"), "a=1&signature=ff");
}

#[test]
fn messages_are_signed() {
    assert_eq!(
        hmac_sha256_hex(b"Jefe", b"what do ya want for nothing?"),
        "5bdcc146bf60754e6a042426089575c75a003f089d2739839dec58b964ec3843"
    );
    let c = RestCli::new("k", "Jefe", "http://x", "S", false, &None);
    let call = c.call("GET", "/p", vec![("a".to_string(), "1".to_string())], None).unwrap();
    assert_eq!((call.method.as_str(), call.url.as_str()), ("GET", "http://x/p?a=1"));
    assert!(call.body.is_none());
    let call = c.call("GET", "/p", vec![], None).unwrap();
    assert_eq!(call.url, "http://x/p");
    let call = c.spot_cancel_all("S", 1234).unwrap();
    assert_eq!((call.method.as_str(), call.url.as_str()), ("DELETE", "http://x/api/v3/openOrders"));
    let qs = "symbol=S&timestamp=1234&recvWindow=5000";
    let sig = hmac_sha256_hex(b"Jefe", qs.as_bytes());
    assert_eq!(call.body.unwrap(), format!("{qs}&signature={sig}"));
}

#[test]
fn orders_carry_their_parameters() {
    let c = RestCli::new("k", "s", "http://x", "S", true, &None);
    let body = |o: Order, futures: bool| -> (String, String, String) {
        let call = c.order(futures, "S", o, 7).unwrap();
        let b = call.body.unwrap();
        let cut = b.find("&timestamp=7&recvWindow=5000&signature=").unwrap();
        (call.method, call.url, b[..cut].to_string())
    };
    let limit = Order::Limit { side: Side::Buy, qty: d(1.23456), price: d(100.126) };
    assert_eq!(
        body(limit, true),
        (
            "POST".to_string(),
            "http://x/fapi/v1/order".to_string(),
            "symbol=S&side=BUY&type=LIMIT&timeInForce=GTC&quantity=1.235&price=100.13".to_string()
        )
    );
    assert_eq!(body(limit, false).1, "http://x/api/v3/order");
    let stop = Order::Stop { side: Side::Sell, qty: d(1.0), stop: d(99.5) };
    assert_eq!(
        body(stop, true).2,
        "symbol=S&side=SELL&type=STOP_MARKET&reduceOnly=true&quantity=1.000&stopPrice=99.50"
    );
    assert_eq!(
        body(stop, false).2,
        "symbol=S&side=SELL&type=STOP_LOSS_LIMIT&timeInForce=GTC&quantity=1.000&stopPrice=99.50&price=99.50"
    );
    let target = Order::Target { side: Side::Sell, qty: d(1.0), price: d(101.0) };
    assert_eq!(
        body(target, true).2,
        "symbol=S&side=SELL&type=TAKE_PROFIT_MARKET&reduceOnly=true&quantity=1.000&stopPrice=101.00"
    );
    assert_eq!(
        body(target, false).2,
        "symbol=S&side=SELL&type=LIMIT&timeInForce=GTC&quantity=1.000&price=101.00"
    );
    assert_eq!(
        body(Order::Leverage(1), true),
        (
            "POST".to_string(),
            "http://x/fapi/v1/leverage".to_string(),
            "symbol=S&leverage=1".to_string()
        )
    );
    assert_eq!(body(Order::CancelAll, true).1, "http://x/fapi/v1/allOpenOrders");
    let call = c.spot_stop_limit("S", Side::Buy, d(2.0), d(5.0), d(6.0), 7).unwrap();
    assert!(call.body.unwrap().contains("stopPrice=5.00&price=6.00"));
    assert_eq!(status_error(418, "teapot"), "HTTP 418: teapot");
    assert_eq!(status_error(500, &"x".repeat(300)).len(), "HTTP 500: ".len() + 200);
}

#[test]
fn the_market_is_learnt() {
    let filter = |kind: &str, n: Json| obj(vec![("filterType", t(kind)), ("notional", n)]);
    let info = obj(vec![(
        "symbols",
        Json::List(vec![
            obj(vec![("symbol", t("A")), ("quantityPrecision", Json::Uint(1))]),
            obj(vec![
                ("symbol", t("B")),
                ("quantityPrecision", Json::Uint(2)),
                (
                    "filters",
                    Json::List(vec![
                        filter("LOT", Json::Int(3)),
                        filter("MIN_NOTIONAL", Json::Int(20)),
                    ]),
                ),
            ]),
            obj(vec![("symbol", t("B")), ("quantityPrecision", Json::Uint(9))]),
        ]),
    )]);
    let c = RestCli::new("k", "s", "b", "B", true, &Some(info));
    assert_eq!(c.qty_prec, 2);
    assert_eq!(f(c.min_notional), 20.0);
    assert_eq!(c.fmt_qty(d(1.005)), "1.00");
    let text_only = obj(vec![(
        "symbols",
        Json::List(vec![obj(vec![
            ("symbol", t("B")),
            ("filters", Json::List(vec![filter("MIN_NOTIONAL", t("7"))])),
        ])]),
    )]);
    let c = RestCli::new("k", "s", "b", "B", true, &Some(text_only));
    assert_eq!((c.qty_prec, f(c.min_notional)), (3, 5.0));
    let c = RestCli::new("k", "s", "b", "B", false, &None);
    assert_eq!((c.qty_prec, f(c.min_notional)), (6, 5.0));
    assert!(RestCli::asks_for_info("B", true));
    assert!(!RestCli::asks_for_info("", true));
    assert!(!RestCli::asks_for_info("B", false));
}

#[test]
fn quantities_are_rounded() {
    for (q, p) in [(1.23456, 3u32), (0.0005, 3), (-2.5, 0), (7.0, 6)] {
        let m = 10f64.powi(p as i32);
        assert_eq!(f(round_to(d(q), p)), (q * m).round() / m);
    }
}

#[test]
fn a_dry_run_orders_nothing() {
    let mut b = Broker::new(&cfg(&[
        ("MODE", "live"),
        ("BINANCE_LIVE_ACK", "yes"),
        ("BINANCE_API_KEY", "k"),
    ]));
    assert!(!b.wants_client());
    let (order, note) = b.on_open(1, d(100.0), d(99.5), d(101.0), d(0.005));
    assert!(order.is_none());
    let note = note.unwrap();
    assert_eq!(note.numbers().len(), 1);
    assert_eq!(
        note.text(&vec!["100".to_string()]),
        "(dry) entry long qty 100 @ 100.00 (notional 10000 USDT, risk 50.00 USDT)"
    );
    assert!(b.arm().is_empty());
    let (orders, note) = b.on_trail(d(100.5));
    assert!(orders.is_empty());
    assert_eq!(note.unwrap().text(&vec![]), "(dry) trail -> SL 100.50");
    assert_eq!(f(b.mirror.unwrap().sl), 100.5);
    let (told, order, note) = b.on_close(&trade(100.0, 101.0, "TP"));
    assert!(order.is_none());
    assert!(b.mirror.is_none() && b.sizing.is_none());
    assert_eq!(told.get("qty").unwrap().as_double().map(f), Some(100.0));
    let shown: Vec<String> = note.numbers().iter().map(|x| format!("{}", f(*x))).collect();
    let pnl = 100.0 - 100.0 * 100.0 * 0.02 / 100.0 - 100.0 * 101.0 * 0.055 / 100.0;
    assert_eq!(
        note.text(&shown),
        format!(
            "closed TP @ 101.00 net {} USDT (fees {}) equity {}",
            (pnl * 1e6f64).round() / 1e6,
            ((100.0 * 100.0 * 0.02 / 100.0 + 100.0 * 101.0 * 0.055 / 100.0) * 1e6f64).round() / 1e6,
            ((10000.0 + pnl) * 100.0).round() / 100.0
        )
    );
}

fn live_broker(min: &str) -> Broker {
    let mut b = Broker::new(&cfg(&[
        ("MODE", "live"),
        ("BINANCE_LIVE_ACK", "yes"),
        ("BINANCE_API_KEY", "k"),
        ("BINANCE_DRY_RUN", "0"),
        ("VENUE", "futures"),
    ]));
    assert!(b.wants_client());
    let mut cli = RestCli::new("k", "s", "b", "S", true, &None);
    cli.min_notional = Double::parse(min).unwrap();
    assert!(matches!(b.attach(cli), Some(Order::Leverage(1))));
    b
}

#[test]
fn orders_follow_the_ledger() {
    let mut b = live_broker("5");
    assert!(b.tradable());
    assert_eq!(b.on_leverage(Ok(())).text(&vec![]), "leverage set to 1x on PAXGUSDT");
    assert_eq!(b.on_leverage(Err("e".to_string())).text(&vec![]), "leverage set failed: e");
    let (order, note) = b.on_open(-1, d(3.0), d(3.1), d(2.8), d(0.005));
    assert!(note.is_none());
    let q = (10000.0f64 / 3.0 * 1000.0).round() / 1000.0;
    match order {
        Some(Order::Limit { side: Side::Sell, qty, price }) => {
            assert_eq!(f(qty), q);
            assert_eq!(f(price), 3.0);
        }
        other => panic!("{other:?}"),
    }
    assert_eq!(
        b.on_entry(Ok("77".to_string()), d(3.0)).unwrap().text(&vec!["Q".to_string()]),
        "entry order 77 short qty Q @ 3.00 (notional 10000 USDT, risk 50.00 USDT)"
    );
    assert_eq!(
        b.on_entry(Err("no".to_string()), d(3.0)).unwrap().text(&vec![]),
        "entry order failed: no"
    );
    let orders = b.arm();
    assert!(matches!(orders[0], Order::CancelAll));
    assert!(matches!(orders[1], Order::Stop { side: Side::Buy, stop, .. } if f(stop) == 3.1));
    assert!(matches!(orders[2], Order::Target { side: Side::Buy, price, .. } if f(price) == 2.8));
    let note = b.on_armed(Ok(())).unwrap();
    assert!(b.mirror.unwrap().armed);
    assert!(matches!(b.balance().get("mirror_armed"), Some(Json::Bool(true))));
    assert_eq!(
        note.text(&vec!["3.1".to_string(), "2.8".to_string()]),
        "protection armed: SL 3.1 TP 2.8"
    );
    assert_eq!(b.on_armed(Err("x".to_string())).unwrap().text(&vec![]), "arm failed: x");
    assert!(!b.mirror.unwrap().armed);
    let (orders, note) = b.on_trail(d(2.9));
    assert_eq!(orders.len(), 3);
    assert!(note.is_none());
    let (_, order, note) = b.on_close(&trade(3.0, 2.9, "SL"));
    assert!(matches!(order, Some(Order::CancelAll)));
    let failed = Broker::on_cancelled(Err("late".to_string()), note);
    assert_eq!(failed.text(&vec![]), "cancel on close failed: late");
    assert!(b.on_armed(Ok(())).is_none());
    assert!(b.on_entry(Ok("1".to_string()), d(1.0)).is_none());
}

#[test]
fn small_entries_are_skipped() {
    let mut b = live_broker("20000");
    let (order, note) = b.on_open(1, d(100.0), d(99.5), d(101.0), d(0.005));
    assert!(order.is_none());
    assert_eq!(
        note.unwrap().text(&vec!["100".to_string(), "20000".to_string()]),
        "entry skipped: qty 100 x 100.00 below venue min notional 20000"
    );
    assert_eq!(b.arm().len(), 3);
}

#[test]
fn the_log_is_cut() {
    let mut b = Broker::new(&cfg(&[]));
    for i in 0..201u128 {
        b.log(&format!("m{i}"), 1500 + i);
    }
    assert_eq!(b.status.len(), 150);
    let shown = b.status_json();
    assert_eq!(shown.as_array().unwrap().len(), 20);
    let newest = shown.item(0).unwrap();
    assert_eq!(newest.get("msg").unwrap().as_str(), Some("m200"));
    assert_eq!(newest.get("ts").unwrap().as_double().map(f), Some(1.7));
    assert_eq!(shown.item(19).unwrap().get("msg").unwrap().as_str(), Some("m181"));
}

fn open_event() -> Event {
    Event::Open {
        side: 1,
        session: "2026-09-07".to_string(),
        entry: d(100.0),
        sl: d(99.5),
        tp: d(101.0),
        slp: d(0.005),
        rr: d(2.0),
        entry_ts: 1000,
        entry_hour: 22,
        session_bars_at_entry: 2,
        last_close: d(100.1),
    }
}

#[test]
fn events_are_published_and_worked_off() {
    let mut desk = Desk { broker: Broker::new(&cfg(&[])), trades_log: Vec::new() };
    let r = desk.on_event(&open_event());
    assert_eq!(r.kind, "open");
    assert!(matches!(r.work, Work::Enter { order: None, note: Some(Note::DryEntry { .. }), .. }));
    let r = desk.on_event(&Event::Trail { ts: 5, a: d(0.1), sl: d(99.9) });
    assert_eq!(r.kind, "trail");
    assert!(matches!(r.work, Work::Protect { note: Some(Note::DryTrail(_)), .. }));
    let r = desk.on_event(&Event::Close(trade(100.0, 101.0, "TP")));
    assert_eq!(r.kind, "close");
    assert!(r.data.get("pnl_usd").is_some());
    assert!(matches!(r.work, Work::Leave { order: None, .. }));
    assert_eq!(desk.trades_log.len(), 1);
    let ev = Event::Session {
        date: "2026-09-07".to_string(),
        open: d(1.0),
        prev_poc: None,
        bias: None,
        ts: 0,
    };
    let r = desk.on_event(&ev);
    assert_eq!(r.kind, "session");
    assert!(matches!(r.work, Work::Nothing));
    for _ in 0..400 {
        desk.on_event(&Event::Close(trade(100.0, 101.0, "TP")));
    }
    assert_eq!(desk.trades_log.len(), 300);
}

#[test]
fn the_past_is_booked_quietly() {
    let mut desk = Desk { broker: Broker::new(&cfg(&[])), trades_log: Vec::new() };
    let evs = vec![open_event(), Event::Close(trade(100.0, 101.0, "TP")), open_event()];
    desk.warm(&evs);
    assert_eq!(desk.trades_log.len(), 1);
    assert_eq!(desk.broker.ledger.n_trades, 1);
    assert!(desk.broker.ledger.open_sizing.is_some());
    assert!(desk.broker.mirror.is_none());
    assert!(desk.broker.status.is_empty());
}

#[test]
fn the_state_is_published() {
    let c = cfg(&[("SYMBOL", "X")]);
    let mut strat = Strategy::new(c.strategy_cfg());
    let feed = RestFeed::new(&c);
    let desk = Desk { broker: Broker::new(&c), trades_log: vec![Json::Int(1), Json::Int(2)] };
    let (st, health) = publish_state(0, &c, &strat, &feed, &desk);
    assert_eq!(st.get("time_utc").unwrap().as_str(), Some("1970-01-01T00:00:00Z"));
    assert_eq!(st.get("mode").unwrap().as_str(), Some("paper"));
    assert_eq!(
        st.get("source").unwrap().as_str(),
        Some("X live via Binance spot REST klines (15m, poll) (binance-spot)")
    );
    assert!(matches!(st.get("last_price"), Some(Json::Null)));
    assert_eq!(st.get("last_trades").unwrap().item(0).unwrap().as_i64(), Some(2));
    let config = st.get("config").unwrap();
    let rung = config.get("ladder").unwrap().item(1).unwrap();
    assert_eq!(rung.item(1).unwrap().as_double().map(f), Some(0.4));
    assert_eq!(config.get("sl_mode").unwrap().as_str(), Some("touch"));
    assert_eq!(health.get("status").unwrap().as_str(), Some("ok"));
    assert!(health.get("feed").unwrap().get("healthy").is_some());
    let t0 = live_trader::calendar::days_from_civil(2026, 9, 6) * 86400 + 22 * 3600;
    for i in 0..300 {
        let b = Bar { ts: t0 + i * 900, o: d(1.0), h: d(1.0), l: d(1.0), c: d(i as f64), v: d(1.0) };
        strat.on_bar(&b);
    }
    let (st, _) = publish_state(0, &c, &strat, &feed, &desk);
    assert_eq!(st.get("recent_bars").unwrap().as_array().unwrap().len(), 240);
    assert_eq!(st.get("last_price").unwrap().as_double().map(f), Some(299.0));
}

#[test]
fn small_messages() {
    let h = boot_health("down");
    assert_eq!(h.get("status").unwrap().as_str(), Some("bootstrapping"));
    assert_eq!(h.get("error").unwrap().as_str(), Some("down"));
    let k = tick_json(d(1.5), d(2.5));
    assert_eq!(k.get("price").unwrap().as_double().map(f), Some(1.5));
    assert_eq!(k.get("ts").unwrap().as_double().map(f), Some(2.5));
    assert_eq!(f(poll_seconds(&cfg(&[("POLL_S", "0.1")]))), 0.5);
    assert_eq!(f(poll_seconds(&cfg(&[]))), 5.0);
    assert_eq!(f(tick_seconds(&cfg(&[("TICK_S", "99")]))), 10.0);
    assert_eq!(f(tick_seconds(&cfg(&[("TICK_S", "0")]))), 0.25);
    assert_eq!(boot_outcome(Ok(vec![])).unwrap_err(), "no closed bars");
    assert_eq!(boot_outcome(Err("e".to_string())).unwrap_err(), "e");
    let one = Bar { ts: 1, o: d(1.0), h: d(1.0), l: d(1.0), c: d(1.0), v: d(1.0) };
    assert_eq!(boot_outcome(Ok(vec![one])).unwrap().len(), 1);
}

fn live_desk() -> Desk {
    Desk { broker: live_broker("5"), trades_log: Vec::new() }
}

/// What is done where these are the replies to the orders.
fn acts(desk: &mut Desk, ev: &Event, replies: &[Reply]) -> Vec<String> {
    let mut left = replies.iter();
    let mut errand = Errand::new(desk.on_event(ev).work);
    let mut reply: Reply = Ok(String::new());
    let mut out: Vec<String> = Vec::new();
    while !matches!(errand, Errand::Over) {
        let (rest, act) = errand.next(&mut desk.broker, reply);
        errand = rest;
        reply = Ok(String::new());
        match act {
            Act::Publish => out.push("publish".to_string()),
            Act::Log(Note::EntrySent { id, .. }) => out.push(format!("entered {id}")),
            Act::Log(Note::EntryFailed(e)) => out.push(format!("no entry: {e}")),
            Act::Log(Note::Armed { .. }) => out.push("armed".to_string()),
            Act::Log(Note::ArmFailed(e)) => out.push(format!("not armed: {e}")),
            Act::Log(Note::CancelFailed(e)) => out.push(format!("not cancelled: {e}")),
            Act::Log(Note::Closed { .. }) => out.push("closed".to_string()),
            Act::Log(_) => out.push("note".to_string()),
            Act::Send(o) => {
                out.push(
                    match o {
                        Order::Limit { .. } => "enter",
                        Order::CancelAll => "cancel",
                        Order::Stop { .. } => "stop",
                        Order::Target { .. } => "target",
                        _ => "other",
                    }
                    .to_string(),
                );
                reply = left.next().unwrap().clone();
            }
            Act::Rest => {}
        }
    }
    assert!(left.next().is_none());
    out
}

fn ok(id: &str) -> Reply {
    Ok(id.to_string())
}

fn failed(why: &str) -> Reply {
    Err(why.to_string())
}

#[test]
fn an_entry_is_protected_whatever_came_of_it() {
    let mut desk = live_desk();
    let done = acts(&mut desk, &open_event(), &[ok("7"), ok(""), ok(""), ok("")]);
    assert_eq!(
        done,
        ["publish", "enter", "entered 7", "cancel", "stop", "target", "armed"]
    );
    assert!(desk.broker.mirror.as_ref().unwrap().armed);
    let done = acts(&mut desk, &open_event(), &[failed("x"), ok(""), ok(""), ok("")]);
    assert_eq!(
        done,
        ["publish", "enter", "no entry: x", "cancel", "stop", "target", "armed"]
    );
}

#[test]
fn protection_stops_at_the_first_failure() {
    let mut desk = live_desk();
    acts(&mut desk, &open_event(), &[ok("7"), ok(""), ok(""), ok("")]);
    let trail = Event::Trail { ts: 5, a: d(0.1), sl: d(99.9) };
    let done = acts(&mut desk, &trail, &[ok(""), failed("no")]);
    assert_eq!(done, ["publish", "cancel", "stop", "not armed: no"]);
    assert!(!desk.broker.mirror.as_ref().unwrap().armed);
    let done = acts(&mut desk, &trail, &[ok(""), ok(""), failed("late")]);
    assert_eq!(done, ["publish", "cancel", "stop", "target", "not armed: late"]);
    assert!(!desk.broker.mirror.as_ref().unwrap().armed);
    let done = acts(&mut desk, &trail, &[failed("first")]);
    assert_eq!(done, ["publish", "cancel", "not armed: first"]);
}

#[test]
fn a_close_is_published_last() {
    let mut desk = live_desk();
    let close = Event::Close(trade(100.0, 101.0, "TP"));
    assert_eq!(acts(&mut desk, &close, &[ok("")]), ["cancel", "closed", "publish"]);
    assert_eq!(
        acts(&mut desk, &close, &[failed("z")]),
        ["cancel", "not cancelled: z", "publish"]
    );
    let mut dry = Desk { broker: Broker::new(&cfg(&[])), trades_log: Vec::new() };
    assert_eq!(acts(&mut dry, &close, &[]), ["closed", "publish"]);
    assert_eq!(acts(&mut dry, &open_event(), &[]), ["publish", "note"]);
    let trail = Event::Trail { ts: 5, a: d(0.1), sl: d(99.9) };
    assert_eq!(acts(&mut dry, &trail, &[]), ["publish", "note"]);
}
