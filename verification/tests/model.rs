//! The engine beside a plain rendering of its rules in machine numbers.

use live_trader::broker::Broker;
use live_trader::calendar::{session_date_key, session_start_ts, session_weekday};
use live_trader::config::Config;
use live_trader::double::Double;
use live_trader::engine::{Event, Strategy, StrategyCfg};
use live_trader::profile::{compute_poc, Bar};
use live_trader::service::Desk;

fn d(x: f64) -> Double {
    Double { bits: x.to_bits() }
}

fn f(x: Double) -> f64 {
    f64::from_bits(x.bits)
}

type Candle = (i64, [f64; 5]);

#[derive(Clone)]
struct Position {
    side: i8,
    entry: f64,
    sl: f64,
    tp: f64,
    slp: f64,
    run: f64,
    locked: f64,
    since: i64,
    held: i64,
}

/// Session, side, entry, exit, kind, percent, entry time, exit time, bars held.
type Closed = (String, i8, f64, f64, &'static str, f64, i64, i64, i64);

#[derive(Default)]
struct Model {
    touch: bool,
    skip: bool,
    same_bar: bool,
    last: Option<i64>,
    atr: Option<f64>,
    close: Option<f64>,
    poc: Option<f64>,
    key: Option<String>,
    start: i64,
    bars: Vec<Candle>,
    bias: i8,
    traded: bool,
    pos: Option<Position>,
    closed: Vec<Closed>,
}

const LADDER: [(f64, f64); 3] = [(0.6, 0.1), (0.75, 0.4), (0.9, 0.7)];

fn point_of_control(bars: &[Candle], start: i64) -> Option<f64> {
    if bars.len() < 8 {
        return None;
    }
    let hi = bars.iter().fold(f64::MIN, |m, b| m.max(b.1[1]));
    let lo = bars.iter().fold(f64::MAX, |m, b| m.min(b.1[2]));
    if hi <= lo {
        return None;
    }
    let w = (hi - lo) / 48.0;
    let mut bins = [0.0f64; 48];
    for bucket in 0..=bars.iter().map(|b| (b.0 - start) / 14400).max().unwrap() {
        let part: Vec<&Candle> = bars.iter().filter(|b| (b.0 - start) / 14400 == bucket).collect();
        if part.is_empty() {
            continue;
        }
        let vh = part.iter().fold(f64::MIN, |m, b| m.max(b.1[1]));
        let vl = part.iter().fold(f64::MAX, |m, b| m.min(b.1[2]));
        let volume = part.iter().fold(0.0, |m, b| m + b.1[4]);
        let a = (((vl - lo) / w) as i64).clamp(0, 47);
        let z = (((vh.min(hi) - lo) / w) as i64).clamp(a, 47);
        for k in a..=z {
            bins[k as usize] += volume / (z - a + 1) as f64;
        }
    }
    let mut peak = 0;
    for k in 1..48 {
        if bins[k] > bins[peak] {
            peak = k;
        }
    }
    Some(lo + (peak as f64 + 0.5) * w)
}

impl Model {
    fn leave(&mut self, kind: &'static str, fill: f64, ts: i64) {
        if let Some(p) = self.pos.take() {
            let pct = if p.side == 1 {
                (fill / p.entry - 1.0) * 100.0
            } else {
                (1.0 - fill / p.entry) * 100.0
            };
            let key = self.key.clone().unwrap();
            self.closed.push((key, p.side, p.entry, fill, kind, pct, p.since, ts, p.held));
        }
    }

    fn manage(&mut self, ts: i64, h: f64, l: f64, c: f64) {
        let p = match &mut self.pos {
            Some(p) => p,
            None => return,
        };
        p.held += 1;
        let long = p.side == 1;
        p.run = if long { p.run.max(h) } else { p.run.min(l) };
        let mut best = p.locked;
        for (progress, a) in LADDER {
            let level = p.entry + (p.tp - p.entry) * progress;
            let hit = if long { p.run >= level } else { p.run <= level };
            if hit && a > best {
                best = a;
            }
        }
        if best != p.locked {
            p.locked = best;
            let step = best * p.slp * p.entry;
            p.sl = if long { p.sl.max(p.entry + step) } else { p.sl.min(p.entry - step) };
        }
        let q = p.clone();
        let (stop, target) = match (long, self.touch) {
            (true, true) => (l <= q.sl, h >= q.tp),
            (true, false) => (c <= q.sl, h >= q.tp),
            (false, true) => (h >= q.sl, l <= q.tp),
            (false, false) => (h >= q.sl, c <= q.tp),
        };
        if stop {
            self.leave("SL", q.sl, ts);
        } else if target {
            self.leave("TP", q.tp, ts);
        }
    }

    fn take(&mut self, b: Candle) {
        let (ts, [o, h, l, c, _]) = b;
        if self.last.map_or(false, |x| ts <= x) {
            return;
        }
        self.last = Some(ts);
        let tr = match self.close {
            None => h - l,
            Some(pc) => (h - l).max((h - pc).abs()).max((l - pc).abs()),
        };
        self.atr = Some(self.atr.map_or(tr, |a| (a * 13.0 + tr) / 14.0));
        self.close = Some(c);
        let settle = self.bars.last().map(|x| x.1[3]);
        if matches!(session_weekday(ts), 4 | 5) {
            self.leave("EOS", settle.unwrap_or(c), ts);
            return;
        }
        let key = session_date_key(ts);
        if self.key.as_deref() != Some(key.as_str()) {
            if self.key.is_some() {
                self.leave("EOS", settle.unwrap_or(o), ts);
                self.poc = point_of_control(&self.bars, self.start);
            }
            self.key = Some(key);
            self.start = session_start_ts(ts);
            self.bars.clear();
            self.traded = false;
            self.bias = self.poc.map_or(0, |p| if o >= p { 1 } else { -1 });
        }
        self.bars.push(b);
        self.manage(ts, h, l, c);
        if self.pos.is_some() || self.traded || (self.skip && ts.rem_euclid(86400) < 3600) {
            return;
        }
        let poc = match self.poc {
            Some(p) => p,
            None => return,
        };
        if (self.bias == 1 && l <= poc) || (self.bias == -1 && h >= poc) {
            let slp = (self.atr.unwrap() / poc).clamp(0.0005, 0.005);
            let s = self.bias as f64;
            self.traded = true;
            self.pos = Some(Position {
                side: self.bias,
                entry: poc,
                sl: poc * (1.0 - s * slp),
                tp: poc * (1.0 + s * (slp * 2.0)),
                slp,
                run: poc,
                locked: 0.0,
                since: ts,
                held: 0,
            });
            if self.same_bar {
                self.manage(ts, h, l, c);
            }
        }
    }
}

/// Six weeks of a walk of prices, with gaps and stale bars.
fn walk(seed: u64) -> Vec<Candle> {
    let mut x = seed;
    let mut next = || {
        x = x.wrapping_mul(6364136223846793005).wrapping_add(1442695040888963407);
        (x >> 33) as f64 / (1u64 << 31) as f64
    };
    let mut out = Vec::new();
    let mut price = 2000.0 + next() * 100.0;
    for i in 0..4000i64 {
        if next() < 0.02 {
            continue;
        }
        let o = price;
        let c = o * (1.0 + (next() - 0.5) * 0.002);
        let h = o.max(c) * (1.0 + next() * 0.0008);
        let l = o.min(c) * (1.0 - next() * 0.0008);
        let ts = 1_788_000_300 + i * 900 - if next() < 0.01 { 1800 } else { 0 };
        out.push((ts, [o, h, l, c, (next() * 1000.0).floor()]));
        price = c;
    }
    out
}

fn compare(seed: u64, touch: bool, skip: bool, same_bar: bool) -> usize {
    let mut cfg = StrategyCfg::default();
    cfg.sl_touch = touch;
    cfg.skip_hour0 = skip;
    cfg.same_bar_exits = same_bar;
    let mut s = Strategy::new(cfg);
    let mut m = Model { touch, skip, same_bar, ..Model::default() };
    for b in walk(seed) {
        let [o, h, l, c, v] = b.1;
        s.on_bar(&Bar { ts: b.0, o: d(o), h: d(h), l: d(l), c: d(c), v: d(v) });
        m.take(b);
    }
    assert_eq!(s.atr().map(f), m.atr);
    assert_eq!(s.prev_poc.map(f), m.poc);
    assert_eq!(s.trades.len(), m.closed.len());
    for (t, w) in s.trades.iter().zip(&m.closed) {
        assert_eq!(t.session, w.0);
        assert_eq!((t.side, f(t.entry), f(t.exit)), (w.1, w.2, w.3));
        assert_eq!(t.exit_type, w.4);
        assert_eq!((f(t.pct), t.entry_ts, t.exit_ts, t.bars_held), (w.5, w.6, w.7, w.8));
    }
    // one trade a session
    for w in s.trades.windows(2) {
        assert!(w[0].session < w[1].session);
    }
    s.trades.len()
}

#[test]
fn trades_with_fills_on_touch() {
    for seed in 1..5 {
        assert!(compare(seed, true, true, true) > 5);
        assert!(compare(seed, true, false, false) > 5);
    }
}

#[test]
fn trades_with_fills_on_the_close() {
    for seed in 5..9 {
        assert!(compare(seed, false, false, true) > 5);
        assert!(compare(seed, false, true, false) > 5);
    }
}

#[test]
fn a_restart_comes_to_the_same_books() {
    let cfg = Config::from_env(&vec![]).unwrap();
    let desk = || Desk { broker: Broker::new(&cfg), trades_log: Vec::new() };
    let (mut live, mut warm) = (desk(), desk());
    let bars: Vec<Bar> = walk(11)
        .iter()
        .map(|&(ts, [o, h, l, c, v])| Bar { ts, o: d(o), h: d(h), l: d(l), c: d(c), v: d(v) })
        .collect();
    let mut s = Strategy::new(cfg.strategy_cfg());
    for b in &bars {
        for ev in s.on_bar(b) {
            live.on_event(&ev);
        }
    }
    let mut again = Strategy::new(cfg.strategy_cfg());
    warm.warm(&again.feed_history(&bars));
    let (a, b) = (&live.broker.ledger, &warm.broker.ledger);
    assert!(a.n_trades > 5);
    assert_eq!(a.n_trades, b.n_trades);
    assert_eq!(f(a.equity), f(b.equity));
    assert_eq!(f(a.fees_paid), f(b.fees_paid));
    assert_ne!(f(a.equity), 10000.0);
}

#[test]
fn the_stop_is_of_the_best_rung() {
    let mut trailed = 0;
    for seed in 21..25 {
        let mut s = Strategy::new(StrategyCfg::default());
        let mut best: Option<f64> = None;
        for (ts, [o, h, l, c, v]) in walk(seed) {
            let held = s.pos.as_ref().map(|p| p.entry_ts);
            s.on_bar(&Bar { ts, o: d(o), h: d(h), l: d(l), c: d(c), v: d(v) });
            let p = match &s.pos {
                Some(p) => p,
                None => continue,
            };
            let (entry, long) = (f(p.entry), p.side == 1);
            if held != Some(p.entry_ts) {
                best = Some(entry);
            }
            if s.latest_bar().map(|b| b.ts) == Some(ts) {
                let b = best.unwrap();
                best = Some(if long { b.max(h) } else { b.min(l) });
            }
            let x = best.unwrap();
            assert_eq!(f(p.runx), x);
            let rung = LADDER
                .iter()
                .filter(|(g, _)| {
                    let level = entry + (f(p.tp) - entry) * g;
                    if long { x >= level } else { x <= level }
                })
                .fold(0.0f64, |a, r| a.max(r.1));
            assert_eq!(f(p.trail_a), rung);
            let step = rung * f(p.slp) * entry;
            let due = match (rung > 0.0, long) {
                (false, _) => f(p.sl0),
                (true, true) => entry + step,
                (true, false) => entry - step,
            };
            assert_eq!(f(p.sl), due);
            if rung > 0.0 {
                trailed += 1;
            }
        }
    }
    assert!(trailed > 3);
}

fn bars_of(seed: u64) -> Vec<Bar> {
    walk(seed)
        .iter()
        .map(|&(ts, [o, h, l, c, v])| Bar { ts, o: d(o), h: d(h), l: d(l), c: d(c), v: d(v) })
        .collect()
}

#[test]
fn positions_are_opened_and_closed_in_turn() {
    for seed in 31..35 {
        let bars = bars_of(seed);
        let mut s = Strategy::new(StrategyCfg::default());
        let told = s.feed_history(&bars);
        let mut seen: Vec<String> = Vec::new();
        let mut open: Option<String> = None;
        let mut closed: Vec<String> = Vec::new();
        for ev in &told {
            match ev {
                Event::Open { session, .. } => {
                    assert!(open.is_none());
                    assert!(!seen.contains(session));
                    seen.push(session.clone());
                    open = Some(session.clone());
                }
                Event::Close(t) => {
                    assert_eq!(open.take().as_ref(), Some(&t.session));
                    assert!(["SL", "TP", "EOS"].contains(&t.exit_type.as_str()));
                    closed.push(format!("{t:?}"));
                }
                _ => {}
            }
        }
        assert!(seen.len() > 5);
        assert_eq!(open, s.pos.as_ref().map(|p| p.session.clone()));
        let trades: Vec<String> = s.trades.iter().map(|t| format!("{t:?}")).collect();
        assert_eq!(closed, trades);
        // bar by bar the same is told
        let mut again = Strategy::new(StrategyCfg::default());
        let mut one_by_one: Vec<Event> = Vec::new();
        for b in &bars {
            one_by_one.extend(again.on_bar(b));
        }
        assert_eq!(format!("{told:?}"), format!("{one_by_one:?}"));
    }
}

#[test]
fn a_profile_keeps_the_volume() {
    for seed in 41..45 {
        let mut bars = bars_of(seed);
        bars.truncate(96);
        for b in &mut bars {
            b.v = d(f(b.v) / 7.0);
        }
        let start = session_start_ts(bars[0].ts);
        let p = compute_poc(&bars, start).unwrap();
        assert_eq!(p.prof.len(), 48);
        assert!(p.prof.iter().all(|&x| f(x) >= 0.0));
        let volume: f64 = bars.iter().map(|b| f(b.v)).sum();
        let held: f64 = p.prof.iter().map(|&x| f(x)).sum();
        assert!(volume > 1000.0);
        assert!((held / volume - 1.0).abs() < 1e-12);
    }
    // shares below the least positive number are lost
    let t0 = session_start_ts(1_788_000_300);
    let tiny: Vec<Bar> = (0..8)
        .map(|i| Bar {
            ts: t0 + i * 900,
            o: d(104.0),
            h: d(107.0),
            l: d(101.0),
            c: d(104.0),
            v: Double { bits: 1 },
        })
        .collect();
    let p = compute_poc(&tiny, t0).unwrap();
    assert!(p.prof.iter().all(|x| x.bits == 0));
}
