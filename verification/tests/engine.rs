use live_trader::calendar::{
    civil_from_days, days_from_civil, iso_utc, session_date_key, session_start_ts, session_weekday,
};
use live_trader::clock::{
    millis_of, now_ms, now_ts, now_ts_f64, read_clock, reading_of, stamp_of, Reading,
};
use live_trader::double::Double;
use live_trader::engine::{Event, Strategy, StrategyCfg};
use live_trader::profile::{compute_poc, insert_bar, Bar};

fn d(x: f64) -> Double {
    Double { bits: x.to_bits() }
}

fn f(x: Double) -> f64 {
    f64::from_bits(x.bits)
}

fn bar(ts: i64, o: f64, h: f64, l: f64, c: f64, v: f64) -> Bar {
    Bar { ts, o: d(o), h: d(h), l: d(l), c: d(c), v: d(v) }
}

#[test]
fn session_keys_roll_at_22utc() {
    // Wed 2026-09-02 21:59 UTC belongs to Tue's session
    let t = days_from_civil(2026, 9, 2) * 86400 + 21 * 3600 + 59 * 60;
    assert_eq!(session_date_key(t), "2026-09-01");
    // Wed 2026-09-02 22:00 UTC opens the Wed (2026-09-02) session
    let t2 = days_from_civil(2026, 9, 2) * 86400 + 22 * 3600;
    assert_eq!(session_date_key(t2), "2026-09-02");
    // Thu 21:59 still belongs to the Wed session
    let t3 = days_from_civil(2026, 9, 3) * 86400 + 21 * 3600 + 59 * 60;
    assert_eq!(session_date_key(t3), "2026-09-02");
    // Sun 22:00 opens the Sunday session (weekday Sun=6 in Mon=0 numbering)
    let sun = days_from_civil(2026, 9, 6) * 86400 + 22 * 3600;
    assert_eq!(session_weekday(sun), 6);
    assert_eq!(session_date_key(sun), "2026-09-06");
}

#[test]
fn session_start_uses_session_date_midnight() {
    // Mon 01:00 belongs to the Sunday session which opened Sun 22:00
    let mon_0100 = days_from_civil(2026, 9, 7) * 86400 + 3600;
    assert_eq!(session_date_key(mon_0100), "2026-09-06");
    assert_eq!(session_start_ts(mon_0100), days_from_civil(2026, 9, 6) * 86400 + 22 * 3600);
}

#[test]
fn poc_first_max_tiebreak_and_shape() {
    let t0 = days_from_civil(2026, 9, 6) * 86400 + 22 * 3600;
    let bars: Vec<Bar> = (0..8)
        .map(|i| bar(t0 + i * 900, 104.0, 107.0, 101.0, 104.0, 10.0))
        .collect();
    let p = compute_poc(&bars, t0).unwrap();
    assert!((f(p.hi) - 107.0).abs() < 1e-9 && (f(p.lo) - 101.0).abs() < 1e-9);
    assert!((f(p.poc) - (101.0 + 0.5 * (107.0 - 101.0) / 48.0)).abs() < 1e-9);
}

#[test]
fn atr_wilder_first_bar() {
    let t0 = days_from_civil(2026, 9, 6) * 86400 + 22 * 3600;
    let b = bar(t0, 100.0, 103.0, 99.0, 102.0, 1.0);
    let mut s = Strategy::new(StrategyCfg::default());
    s.on_bar(&b);
    assert!((f(s.atr().unwrap()) - 4.0).abs() < 1e-9); // h-l = 4
}

#[test]
fn dates_go_both_ways() {
    assert_eq!(civil_from_days(0), (1970, 1, 1));
    assert_eq!(civil_from_days(-1), (1969, 12, 31));
    assert_eq!(civil_from_days(11016), (2000, 2, 29));
    assert_eq!(days_from_civil(1970, 1, 1), 0);
    assert_eq!(days_from_civil(2000, 2, 29), 11016);
    assert_eq!(days_from_civil(0, 3, 1), -719468);
    for z in (-800_000..800_000).step_by(997) {
        let (y, m, day) = civil_from_days(z);
        assert_eq!(days_from_civil(y, m, day), z);
    }
    assert_eq!(iso_utc(0), "1970-01-01T00:00:00Z");
    assert_eq!(iso_utc(1_788_300_245), "2026-09-01T22:04:05Z");
    assert_eq!(iso_utc(-1), "1969-12-31T23:59:59Z");
    assert_eq!(iso_utc(-62_167_219_200), "0000-01-01T00:00:00Z");
    assert_eq!(iso_utc(253_402_300_799), "9999-12-31T23:59:59Z");
    let mut before = iso_utc(-62_167_219_200);
    for t in (-62_167_219_199i64..253_402_300_799).step_by(1_234_567_891) {
        let text = iso_utc(t);
        assert!(text.len() == 20 && before < text, "{before} {text}");
        before = text;
    }
    // dates before the year 0 are told apart too
    let early = days_from_civil(-12, 3, 4) * 86400 + 22 * 3600;
    assert_eq!(session_date_key(early), "-012-03-04");
}

#[test]
fn too_few_bars_make_no_profile() {
    let t0 = days_from_civil(2026, 9, 6) * 86400 + 22 * 3600;
    let bars: Vec<Bar> = (0..7).map(|i| bar(t0 + i * 900, 1.0, 2.0, 0.5, 1.0, 1.0)).collect();
    assert!(compute_poc(&bars, t0).is_none());
}

#[test]
fn bars_are_put_in_order() {
    let mut v: Vec<Bar> = Vec::new();
    for (i, ts) in [5i64, 1, 3, 3, 9, 0].iter().enumerate() {
        insert_bar(&mut v, bar(*ts, i as f64, 0.0, 0.0, 0.0, 0.0));
    }
    let order: Vec<(i64, f64)> = v.iter().map(|b| (b.ts, f(b.o))).collect();
    assert_eq!(order, vec![(0, 5.0), (1, 1.0), (3, 2.0), (3, 3.0), (5, 0.0), (9, 4.0)]);
}

/// The usual settings, but for exits on the entry bar.
fn next_bar_exits() -> StrategyCfg {
    let mut cfg = StrategyCfg::default();
    cfg.same_bar_exits = false;
    cfg
}

/// Sunday's session, flat at 100 with some volume, and its end.
fn first_session(s: &mut Strategy) -> i64 {
    let t0 = days_from_civil(2026, 9, 6) * 86400 + 22 * 3600;
    for i in 0..96 {
        let evs = s.on_bar(&bar(t0 + i * 900, 100.0, 100.2, 99.8, 100.0, 10.0));
        assert!(evs.is_empty());
    }
    t0 + 86400
}

#[test]
fn a_long_trade_is_entered_trailed_and_stopped() {
    let mut s = Strategy::new(next_bar_exits());
    let t1 = first_session(&mut s);
    // the second session opens above the point of control: long
    let evs = s.on_bar(&bar(t1, 100.5, 100.6, 100.4, 100.5, 1.0));
    assert_eq!(evs.len(), 1);
    let poc = match &evs[0] {
        Event::Session { date, open, prev_poc, bias, ts } => {
            assert_eq!(date, "2026-09-07");
            assert_eq!(f(*open), 100.5);
            assert_eq!(*bias, Some(1));
            assert_eq!(*ts, t1);
            f(prev_poc.unwrap())
        }
        other => panic!("{other:?}"),
    };
    let w = (100.2f64 - 99.8) / 48.0;
    assert_eq!(poc, 99.8 + 0.5 * w);
    // it comes back to it
    let evs = s.on_bar(&bar(t1 + 900, 100.4, 100.45, 99.75, 100.3, 1.0));
    assert_eq!(evs.len(), 1);
    let (entry, sl, tp, slp) = match &evs[0] {
        Event::Open { side, session, entry, sl, tp, slp, entry_hour, session_bars_at_entry, .. } => {
            assert_eq!(*side, 1);
            assert_eq!(session, "2026-09-07");
            assert_eq!(*entry_hour, 22);
            assert_eq!(*session_bars_at_entry, 2);
            (f(*entry), f(*sl), f(*tp), f(*slp))
        }
        other => panic!("{other:?}"),
    };
    assert_eq!(entry, poc);
    assert!((0.0005..=0.005).contains(&slp));
    assert_eq!(sl, entry * (1.0 - slp));
    assert_eq!(tp, entry * (1.0 + slp * 2.0));
    // nine tenths of the way are worth seven tenths of the risk
    let high = entry + (tp - entry) * 0.95;
    let evs = s.on_bar(&bar(t1 + 1800, high, high, entry + 0.9 * (tp - entry), high, 1.0));
    assert_eq!(evs.len(), 1);
    let moved = match &evs[0] {
        Event::Trail { a, sl, .. } => {
            assert_eq!(f(*a), 0.7);
            f(*sl)
        }
        other => panic!("{other:?}"),
    };
    assert_eq!(moved, entry + 0.7 * slp * entry);
    assert!(moved > sl);
    // a bar that takes stop and target is a stop
    let evs = s.on_bar(&bar(t1 + 2700, entry, tp + 1.0, sl - 1.0, entry, 1.0));
    assert_eq!(evs.len(), 1);
    match &evs[0] {
        Event::Close(t) => {
            assert_eq!(t.exit_type, "SL");
            assert_eq!(f(t.exit), moved);
            assert_eq!(f(t.pct), (moved / entry - 1.0) * 100.0);
            assert_eq!(t.bars_held, 2);
            assert_eq!(t.exit_ts, t1 + 2700);
        }
        other => panic!("{other:?}"),
    }
    assert_eq!(f(s.net()), (moved / entry - 1.0) * 100.0);
    // one trade per session
    assert!(s.on_bar(&bar(t1 + 3600, 99.8, 99.9, 99.7, 99.8, 1.0)).is_empty());
    assert_eq!(s.trades.len(), 1);
}

#[test]
fn a_trade_may_end_on_its_entry_bar() {
    let mut s = Strategy::new(StrategyCfg::default());
    let t1 = first_session(&mut s);
    s.on_bar(&bar(t1, 100.5, 100.6, 100.4, 100.5, 1.0));
    let evs = s.on_bar(&bar(t1 + 900, 100.4, 100.45, 99.75, 100.3, 1.0));
    assert!(matches!(evs[0], Event::Open { .. }));
    assert!(matches!(evs[1], Event::Trail { .. }));
    match &evs[2] {
        Event::Close(t) => {
            assert_eq!(t.exit_type, "SL");
            assert_eq!(t.bars_held, 1);
            assert!(f(t.pct) > 0.0);
        }
        other => panic!("{other:?}"),
    }
    assert_eq!(s.state().get("phase").unwrap().as_str(), Some("session_done"));
}

#[test]
fn a_position_is_closed_at_the_end_of_its_session() {
    let mut s = Strategy::new(next_bar_exits());
    let t1 = first_session(&mut s);
    s.on_bar(&bar(t1, 99.0, 99.1, 98.9, 99.0, 1.0));
    // opened below: short
    let evs = s.on_bar(&bar(t1 + 900, 99.0, 100.0, 98.9, 99.8, 1.0));
    match &evs[0] {
        Event::Open { side, .. } => assert_eq!(*side, -1),
        other => panic!("{other:?}"),
    }
    let entry = f(s.pos.as_ref().unwrap().entry);
    // a bar that is not later changes nothing
    assert!(s.on_bar(&bar(t1 + 900, 0.0, 1e6, 0.0, 1.0, 1.0)).is_empty());
    // the next session starts
    let evs = s.on_bar(&bar(t1 + 86400, 99.8, 99.85, 99.75, 99.8, 1.0));
    match &evs[0] {
        Event::Close(t) => {
            assert_eq!(t.exit_type, "EOS");
            assert_eq!(f(t.exit), 99.8);
            assert_eq!(f(t.pct), (1.0 - 99.8 / entry) * 100.0);
        }
        other => panic!("{other:?}"),
    }
    assert!(matches!(evs[1], Event::Session { .. }));
    assert!(s.pos.is_none());
}

#[test]
fn a_position_is_closed_on_an_idle_day() {
    let mut cfg = next_bar_exits();
    cfg.skip_hour0 = false;
    let mut s = Strategy::new(cfg);
    let wed = days_from_civil(2026, 9, 9) * 86400 + 22 * 3600;
    for i in 0..96 {
        s.on_bar(&bar(wed + i * 900, 100.0, 100.2, 99.8, 100.0, 10.0));
    }
    let thu = wed + 86400;
    s.on_bar(&bar(thu, 100.0, 100.05, 99.95, 100.0, 1.0));
    s.on_bar(&bar(thu + 900, 100.0, 100.05, 99.7, 100.0, 1.0));
    assert!(s.pos.is_some());
    // Friday's session is not traded
    let fri = thu + 86400;
    let evs = s.on_bar(&bar(fri, 100.0, 100.0, 100.0, 100.0, 1.0));
    assert_eq!(evs.len(), 1);
    assert!(matches!(&evs[0], Event::Close(t) if t.exit_type == "EOS" && t.exit_ts == fri));
    assert!(s.pos.is_none());
}

#[test]
fn a_position_is_closed_by_hand() {
    let mut s = Strategy::new(next_bar_exits());
    assert!(s.force_flat().is_none());
    let t1 = first_session(&mut s);
    s.on_bar(&bar(t1, 100.5, 100.6, 100.4, 100.5, 1.0));
    s.on_bar(&bar(t1 + 900, 100.4, 100.45, 99.75, 100.3, 1.0));
    match s.force_flat() {
        Some(Event::Close(t)) => {
            assert_eq!(t.exit_type, "MANUAL");
            assert_eq!(f(t.exit), 100.3);
        }
        other => panic!("{other:?}"),
    }
    assert!(s.force_flat().is_none());
}

#[test]
fn the_first_hour_is_skipped_where_asked() {
    let mut s = Strategy::new(next_bar_exits());
    let t1 = first_session(&mut s);
    s.on_bar(&bar(t1, 100.5, 100.6, 100.4, 100.5, 1.0));
    let midnight = t1 + 2 * 3600;
    assert!(s.on_bar(&bar(midnight, 100.4, 100.45, 99.75, 100.3, 1.0)).is_empty());
    assert_eq!(s.on_bar(&bar(midnight + 3600, 100.4, 100.45, 99.75, 100.3, 1.0)).len(), 1);
}

#[test]
fn history_in_parts_is_history_at_once() {
    let t0 = days_from_civil(2026, 9, 6) * 86400 + 22 * 3600;
    let mut price = 100.0f64;
    let mut seed = 12345u64;
    let mut bars: Vec<Bar> = Vec::new();
    for i in 0..2000i64 {
        seed = seed.wrapping_mul(6364136223846793005).wrapping_add(1442695040888963407);
        let step = ((seed >> 33) as f64 / 2147483648.0 - 0.5) * 0.4;
        let o = price;
        price += step;
        let hi = o.max(price) + 0.05;
        let lo = o.min(price) - 0.05;
        bars.push(bar(t0 + i * 900, o, hi, lo, price, 5.0 + step.abs()));
    }
    let mut a = Strategy::new(StrategyCfg::default());
    let all = a.feed_history(&bars);
    let mut b = Strategy::new(StrategyCfg::default());
    let mut parts = b.feed_history(&bars[..777]);
    parts.extend(b.feed_history(&bars[777..]));
    assert_eq!(format!("{all:?}"), format!("{parts:?}"));
    assert_eq!(format!("{:?}", a.trades), format!("{:?}", b.trades));
    // no two trades of one session, and every trade was told
    assert!(a.trades.len() > 5);
    for i in 1..a.trades.len() {
        assert!(a.trades[i - 1].session < a.trades[i].session);
    }
    let told = all.iter().filter(|e| matches!(e, Event::Close(_))).count();
    assert_eq!(told, a.trades.len());
    assert!(a.recent_events.len() < 400);
}

#[test]
fn the_state_tells_the_phase() {
    let mut s = Strategy::new(next_bar_exits());
    let st = s.state();
    assert_eq!(st.get("phase").unwrap().as_str(), Some("bootstrap"));
    assert!(st.get("position").unwrap().as_str().is_none());
    let t1 = first_session(&mut s);
    s.on_bar(&bar(t1, 100.5, 100.6, 100.4, 100.5, 1.0));
    assert_eq!(s.state().get("phase").unwrap().as_str(), Some("waiting_trigger"));
    assert_eq!(s.active_session(), Some("2026-09-07"));
    s.on_bar(&bar(t1 + 900, 100.4, 100.45, 99.75, 100.3, 1.0));
    let st = s.state();
    assert_eq!(st.get("phase").unwrap().as_str(), Some("in_position"));
    let p = st.get("position").unwrap();
    assert_eq!(p.get("side").unwrap().as_str(), Some("long"));
    let entry = f(p.get("entry").unwrap().as_double().unwrap());
    let unreal = f(p.get("unreal_pct").unwrap().as_double().unwrap());
    assert_eq!(unreal, (100.3 / entry - 1.0) * 100.0);
    assert_eq!(st.get("total_bars").unwrap().as_i64(), Some(98));
    let last = st.get("last_bar").unwrap();
    assert_eq!(last.get("ts").unwrap().as_i64(), Some(t1 + 900));
}

#[test]
fn the_clock_is_read() {
    let t = now_ts();
    assert!(t > 1_500_000_000);
    let ms = now_ms().unwrap();
    assert!((ms / 1000) as i64 - t <= 2);
    assert!((f(now_ts_f64()) - t as f64).abs() < 3.0);
    let r = Reading { secs: 12, nanos: 345_678_901 };
    assert_eq!(r.millis(), 12_345);
    assert_eq!(f(r.seconds()), 12.0 + 345_678_901.0 / 1e9);
    let same = Reading::of_nanos(12_345_678_901);
    assert_eq!((same.secs, same.nanos), (12, 345_678_901));
    let read = reading_of(Some(12_345_678_901)).unwrap();
    assert_eq!((read.secs, read.nanos), (12, 345_678_901));
    assert!(reading_of(None).is_none());
    assert_eq!(millis_of(Some(read)), Some(12_345));
    assert_eq!(millis_of(None), None);
    assert!(read_clock().is_some());
    assert_eq!(stamp_of(None), 0);
    assert_eq!(stamp_of(Some(r)), 12);
}

#[test]
fn a_position_is_managed_bar_by_bar() {
    let mut s = Strategy::new(next_bar_exits());
    let t1 = first_session(&mut s);
    s.on_bar(&bar(t1, 100.5, 100.6, 100.4, 100.5, 1.0));
    s.on_bar(&bar(t1 + 900, 100.4, 100.45, 99.75, 100.3, 1.0));
    let p = s.pos.as_ref().unwrap();
    let (entry, sl0, tp, slp) = (f(p.entry), f(p.sl0), f(p.tp), f(p.slp));
    let at = |x: f64| entry + (tp - entry) * x;
    // nothing is reached yet
    let b = bar(t1 + 1800, entry, at(0.5), at(0.1), entry, 1.0);
    assert!(s.manage(&b).is_empty());
    assert_eq!(f(s.pos.as_ref().unwrap().sl), sl0);
    assert_eq!(f(s.pos.as_ref().unwrap().runx), at(0.5));
    // the second rung, from one bar
    let b = bar(t1 + 2700, at(0.7), at(0.8), at(0.7), at(0.8), 1.0);
    let evs = s.manage(&b);
    assert_eq!(evs.len(), 1);
    match &evs[0] {
        Event::Trail { ts, a, sl } => {
            assert_eq!((*ts, f(*a)), (t1 + 2700, 0.4));
            assert_eq!(f(*sl), entry + 0.4 * slp * entry);
        }
        other => panic!("{other:?}"),
    }
    // a later bar that reaches less moves nothing
    let b = bar(t1 + 3600, at(0.7), at(0.7), at(0.6), at(0.7), 1.0);
    assert!(s.manage(&b).is_empty());
    assert_eq!(f(s.pos.as_ref().unwrap().trail_a), 0.4);
    // the exits of a bar see the rung that it reaches
    let b = bar(t1 + 4500, at(0.9), at(0.95), at(0.1), at(0.1), 1.0);
    let evs = s.manage(&b);
    assert_eq!(evs.len(), 2);
    assert!(matches!(&evs[0], Event::Trail { a, .. } if f(*a) == 0.7));
    match &evs[1] {
        Event::Close(t) => {
            assert_eq!(t.exit_type, "SL");
            assert_eq!(f(t.exit), entry + 0.7 * slp * entry);
            assert_eq!((f(t.sl), f(t.trail_a), t.bars_held), (sl0, 0.7, 4));
        }
        other => panic!("{other:?}"),
    }
    assert!(s.pos.is_none());
}
