//! The service: what follows from the engine's events, what is published, and
//! the replay of recorded bars.

use crate::broker::{Broker, BrokerView, Note, NoteView};
use crate::config::{Config, ConfigView};
use crate::double::Double;
use crate::engine;
use crate::engine::{CfgView, Event, EventView, Strategy, StrategyView, TradeView};
use crate::errand::{Work, WorkView};
use crate::feed::{FeedView, RestFeed};
use crate::http::ENGINE_VERSION;
use crate::json::{put, put_item, text, Json, JsonView};
use crate::laws;
use crate::ledger;
use crate::orders::Order;
use crate::profile;
use crate::profile::{bars_json, Bar};
use vstd::prelude::*;
use vstd::string::*;

verus! {

/// Trades of the log above which it is cut.
pub const TRADES_FULL: usize = 400;

/// Trades of the log that a cut leaves.
pub const TRADES_KEPT: usize = 300;

/// Trades that are shown.
pub const TRADES_SHOWN: usize = 40;

/// Bars that are shown.
pub const BARS_SHOWN: usize = 240;

// ---------------------------------------------------------------------------
// Events
// ---------------------------------------------------------------------------

/// The broker and the trades that it has closed.
pub struct Desk {
    pub broker: Broker,
    pub trades_log: Vec<Json>,
}

/// What the desk says.
pub struct DeskView {
    pub broker: BrokerView,
    pub trades_log: Seq<JsonView>,
}

impl View for Desk {
    type V = DeskView;

    open spec fn view(&self) -> DeskView {
        DeskView {
            broker: self.broker@,
            trades_log: crate::json::items_view(self.trades_log@),
        }
    }
}

/// What an event leads to: what is published, and what is left to be done.
#[derive(Debug)]
pub struct Reaction {
    pub kind: &'static str,
    pub data: Json,
    pub work: Work,
}

/// The kind under which an event is published.
pub open spec fn kind_of(ev: EventView) -> Seq<char> {
    match ev {
        EventView::Session { .. } => "session"@,
        EventView::Open { .. } => "open"@,
        EventView::Trail { .. } => "trail"@,
        EventView::Close(_) => "close"@,
    }
}

impl DeskView {
    /// The log with one more trade.
    pub open spec fn with_trade(self, told: JsonView) -> Seq<JsonView> {
        let all = self.trades_log.push(told);
        if all.len() > TRADES_FULL {
            ledger::last_items(all, TRADES_KEPT as int)
        } else {
            all
        }
    }

    /// What is told of a trade when it is closed.
    pub open spec fn told(self, t: TradeView) -> JsonView {
        JsonView::Object(self.broker.ledger.close_fields(t))
    }

    /// The desk after an event.
    pub open spec fn after(self, ev: EventView) -> DeskView {
        match ev {
            EventView::Session { .. } => self,
            EventView::Open { side, entry, sl, tp, slp, .. } => DeskView {
                broker: self.broker.opened(side, entry, sl, tp, slp),
                ..self
            },
            EventView::Trail { sl, .. } => DeskView { broker: self.broker.trailed(sl), ..self },
            EventView::Close(t) => DeskView {
                broker: self.broker.closed(t),
                trades_log: self.with_trade(self.told(t)),
            },
        }
    }

    /// The desk after some events.
    pub open spec fn after_all(self, evs: Seq<EventView>) -> DeskView
        decreases evs.len(),
    {
        if evs.len() == 0 {
            self
        } else {
            self.after_all(evs.drop_last()).after(evs.last())
        }
    }

    /// What is published of an event: a closed trade with what it came to, any
    /// other event as it is.
    pub open spec fn data_of(self, ev: EventView) -> JsonView {
        match ev {
            EventView::Close(t) => self.told(t),
            _ => ev.json(),
        }
    }

    /// The work that an event asks for.
    pub open spec fn work_of(self, ev: EventView) -> WorkView {
        match ev {
            EventView::Session { .. } => WorkView::Nothing,
            EventView::Open { side, entry, slp, .. } => WorkView::Enter {
                order: self.broker.entry_order(side, entry, slp),
                note: self.broker.entry_note(side, entry, slp),
                entry,
            },
            EventView::Trail { sl, .. } => WorkView::Protect {
                orders: self.broker.trailed(sl).arm_orders(),
                note: if self.broker.trades() {
                    None
                } else {
                    Some(NoteView::DryTrail(sl))
                },
            },
            EventView::Close(t) => WorkView::Leave {
                order: if self.broker.trades() {
                    Some(Order::CancelAll)
                } else {
                    None
                },
                closed: self.broker.close_note(t),
            },
        }
    }

    /// The desk after an event of the past: positions are sized and trades are
    /// booked, but nothing is ordered.
    pub open spec fn warmed(self, ev: EventView) -> DeskView {
        match ev {
            EventView::Open { entry, slp, .. } => DeskView {
                broker: BrokerView { ledger: self.broker.ledger.opened(entry, slp), ..self.broker },
                ..self
            },
            EventView::Close(t) => DeskView {
                broker: BrokerView { ledger: self.broker.ledger.replayed(t), ..self.broker },
                trades_log: self.trades_log.push(
                    JsonView::Object(
                        self.broker.ledger.opened(t.entry, t.slp).close_fields(t),
                    ),
                ),
            },
            _ => self,
        }
    }

    /// The desk after some events of the past.
    pub open spec fn warmed_by(self, evs: Seq<EventView>) -> DeskView
        decreases evs.len(),
    {
        if evs.len() == 0 {
            self
        } else {
            self.warmed_by(evs.drop_last()).warmed(evs.last())
        }
    }
}

impl Desk {
    /// Takes an event of the engine, and says what is published of it and what
    /// is left to be done.
    pub fn on_event(&mut self, ev: &Event) -> (r: Reaction)
        requires
            old(self).broker.ledger.n_trades < usize::MAX,
        ensures
            final(self)@ == old(self)@.after(ev@),
            r.kind@ == kind_of(ev@),
            r.data@ == old(self)@.data_of(ev@),
            r.work@ == old(self)@.work_of(ev@),
    {
        match ev {
            Event::Session { .. } => Reaction {
                kind: "session",
                data: ev.to_json(),
                work: Work::Nothing,
            },
            Event::Open { side, entry, sl, tp, slp, .. } => {
                let (order, note): (Option<Order>, Option<Note>) = self.broker.on_open(
                    *side,
                    *entry,
                    *sl,
                    *tp,
                    *slp,
                );
                Reaction {
                    kind: "open",
                    data: ev.to_json(),
                    work: Work::Enter { order, note, entry: *entry },
                }
            },
            Event::Trail { sl, .. } => {
                let (orders, note): (Vec<Order>, Option<Note>) = self.broker.on_trail(*sl);
                Reaction {
                    kind: "trail",
                    data: ev.to_json(),
                    work: Work::Protect { orders, note },
                }
            },
            Event::Close(t) => {
                let (told, order, note): (Json, Option<Order>, Note) = self.broker.on_close(t);
                self.note_trade(told.copy());
                Reaction { kind: "close", data: told, work: Work::Leave { order, closed: note } }
            },
        }
    }

    /// Puts a trade into the log.
    fn note_trade(&mut self, told: Json)
        ensures
            final(self)@ == (DeskView {
                trades_log: old(self)@.with_trade(told@),
                ..old(self)@
            }),
    {
        put_item(&mut self.trades_log, told);
        let ghost all = self.trades_log@;
        let n: usize = self.trades_log.len();
        proof {
            crate::json::lemma_items_view(all);
        }
        if n > TRADES_FULL {
            let tail: Vec<Json> = self.trades_log.split_off(n - TRADES_KEPT);
            proof {
                crate::json::lemma_items_view(tail@);
                assert(crate::json::items_view(tail@) =~= ledger::last_items(
                    crate::json::items_view(all),
                    TRADES_KEPT as int,
                ));
            }
            self.trades_log = tail;
        }
    }

    /// Takes an event of the past.
    fn warm_one(&mut self, ev: &Event)
        requires
            old(self).broker.ledger.n_trades < usize::MAX,
        ensures
            final(self)@ == old(self)@.warmed(ev@),
            final(self).broker.ledger.n_trades <= old(self).broker.ledger.n_trades + 1,
    {
        match ev {
            Event::Open { entry, slp, .. } => {
                let _ = self.broker.ledger.on_open(*entry, *slp);
            },
            Event::Close(t) => {
                let told: Json = self.broker.quiet_close(t);
                put_item(&mut self.trades_log, told);
            },
            _ => {},
        }
    }

    /// Takes the events of the past: trades are booked, but nothing is ordered.
    pub fn warm(&mut self, evs: &Vec<Event>)
        requires
            old(self).broker.ledger.n_trades + evs@.len() <= usize::MAX,
        ensures
            final(self)@ == old(self)@.warmed_by(engine::events_view(evs@)),
    {
        let ghost all = engine::events_view(evs@);
        let mut i: usize = 0;
        assert(all.take(0) =~= seq![]);
        while i < evs.len()
            invariant
                i <= evs@.len(),
                all == engine::events_view(evs@),
                self.broker.ledger.n_trades <= old(self).broker.ledger.n_trades + i,
                old(self).broker.ledger.n_trades + evs@.len() <= usize::MAX,
                self@ == old(self)@.warmed_by(all.take(i as int)),
            decreases evs@.len() - i,
        {
            proof {
                assert(all.take(i + 1).drop_last() =~= all.take(i as int));
                assert(all[i as int] == evs@[i as int]@);
                assert(all.take(i + 1).last() == all[i as int]);
            }
            self.warm_one(&evs[i]);
            i = i + 1;
        }
        assert(all.take(i as int) =~= all);
    }
}

/// What the start of the feed came to, of the bars or the error that it gave.
pub open spec fn booted(fetched: Result<Seq<Bar>, Seq<char>>) -> Result<Seq<Bar>, Seq<char>> {
    match fetched {
        Ok(bars) => if bars.len() > 0 {
            Ok(bars)
        } else {
            Err("no closed bars"@)
        },
        Err(e) => Err(e),
    }
}

/// What the start of the feed came to: its bars where there are any, and else
/// why it is to be tried again.
pub fn boot_outcome(fetched: Result<Vec<Bar>, String>) -> (r: Result<Vec<Bar>, String>)
    ensures
        match booted(
            match fetched {
                Ok(bars) => Ok::<Seq<Bar>, Seq<char>>(bars@),
                Err(e) => Err::<Seq<Bar>, Seq<char>>(e@),
            },
        ) {
            Ok(bars) => r matches Ok(out) && out@ == bars,
            Err(e) => r matches Err(x) && x@ == e,
        },
        match fetched {
            Ok(bars) => if bars@.len() > 0 {
                r matches Ok(out) && out@ == bars@
            } else {
                r matches Err(e) && e@ == "no closed bars"@
            },
            Err(e) => r matches Err(x) && x@ == e@,
        },
{
    match fetched {
        Ok(bars) => if bars.len() > 0 {
            Ok(bars)
        } else {
            Err("no closed bars".to_owned())
        },
        Err(e) => Err(e),
    }
}

// ---------------------------------------------------------------------------
// What is published
// ---------------------------------------------------------------------------

/// A rung of the ladder as the dashboard reads it.
pub open spec fn rung_items(r: (Double, Double)) -> Seq<JsonView> {
    seq![JsonView::Number(r.0), JsonView::Number(r.1)]
}

/// The ladder as the dashboard reads it.
pub open spec fn ladder_items(l: Seq<(Double, Double)>) -> Seq<JsonView> {
    l.map_values(|r: (Double, Double)| JsonView::List(rung_items(r)))
}

/// The configuration as the dashboard reads it.
pub open spec fn config_fields(c: ConfigView) -> Seq<(Seq<char>, JsonView)> {
    seq![
        ("rr"@, JsonView::Number(c.rr)),
        ("skip_hour0"@, JsonView::Bool(c.skip_hour0)),
        ("trail_on"@, JsonView::Bool(c.trail_on)),
        ("ladder"@, JsonView::List(ladder_items(c.ladder))),
        ("symbol"@, JsonView::Text(c.symbol)),
        ("sl_mode"@, JsonView::Text(c.stop_mode())),
        ("fee_maker_pct"@, JsonView::Number(c.fee_maker_pct)),
        ("fee_taker_pct"@, JsonView::Number(c.fee_taker_pct)),
        ("sl_slip_pct"@, JsonView::Number(c.sl_slip_pct)),
        ("legacy_sizing"@, JsonView::Bool(c.legacy_sizing)),
        ("position_usd"@, JsonView::Number(c.position_usd)),
        ("risk_pct"@, JsonView::Number(c.risk_pct)),
        ("leverage_cap"@, JsonView::Number(c.leverage_cap)),
        ("poll_s"@, JsonView::Number(c.poll_s)),
    ]
}

/// The last price: that of the feed, or else the latest close.
pub open spec fn price_json(s: StrategyView, f: FeedView) -> JsonView {
    match f.last_price {
        Some(p) => JsonView::Number(p),
        None => match s.latest() {
            Some(b) => JsonView::Number(b.c),
            None => JsonView::Null,
        },
    }
}

/// What is published of the state beside the engine's own.
pub open spec fn service_fields(
    s: StrategyView,
    c: ConfigView,
    f: FeedView,
    d: DeskView,
) -> Seq<(Seq<char>, JsonView)> {
    seq![
        ("mode"@, JsonView::Text(c.shown_mode())),
        ("symbol"@, JsonView::Text(c.symbol)),
        ("source"@, JsonView::Text(c.source_text() + " ("@ + f.label() + ")"@)),
        ("last_price"@, price_json(s, f)),
        (
            "balance"@,
            JsonView::Object(
                d.broker.ledger.balance_fields(
                    d.broker.cfg.mode_text(),
                    match d.broker.mirror {
                        Some(m) => m.armed,
                        None => false,
                    },
                ),
            ),
        ),
        ("equity_curve"@, JsonView::List(ledger::curve_items(d.broker.ledger.curve))),
        (
            "recent_bars"@,
            JsonView::List(profile::bar_items(ledger::last_items(s.bars, BARS_SHOWN as int))),
        ),
        (
            "last_trades"@,
            JsonView::List(ledger::last_items(d.trades_log, TRADES_SHOWN as int).reverse()),
        ),
        ("broker_status"@, JsonView::List(d.broker.newest())),
        ("feed_health"@, JsonView::Object(f.health.fields())),
        ("engine"@, JsonView::Text(ENGINE_VERSION@)),
        ("config"@, JsonView::Object(config_fields(c))),
    ]
}

/// The health that is published.
pub open spec fn health_fields(f: FeedView) -> Seq<(Seq<char>, JsonView)> {
    seq![
        ("status"@, JsonView::Text("ok"@)),
        ("engine"@, JsonView::Text(ENGINE_VERSION@)),
        ("feed"@, JsonView::Object(f.health.fields())),
    ]
}

fn ladder_json(l: &Vec<(Double, Double)>) -> (r: Json)
    ensures
        r@ == JsonView::List(ladder_items(l@)),
{
    let mut out: Vec<Json> = Vec::new();
    let mut i: usize = 0;
    let ghost all = ladder_items(l@);
    assert(all.take(0) =~= seq![]);
    while i < l.len()
        invariant
            i <= l@.len(),
            all == ladder_items(l@),
            crate::json::items_view(out@) == all.take(i as int),
        decreases l@.len() - i,
    {
        let mut rung: Vec<Json> = Vec::new();
        put_item(&mut rung, Json::Number(l[i].0));
        put_item(&mut rung, Json::Number(l[i].1));
        assert(crate::json::items_view(rung@) =~= rung_items(l@[i as int]));
        put_item(&mut out, Json::List(rung));
        assert(all.take(i + 1) =~= all.take(i as int).push(all[i as int]));
        i = i + 1;
    }
    assert(all.take(i as int) =~= all);
    Json::List(out)
}

/// The configuration as the dashboard reads it.
pub fn config_json(c: &Config) -> (r: Json)
    ensures
        r@ == JsonView::Object(config_fields(c@)),
{
    let mut f: Vec<(String, Json)> = Vec::new();
    put(&mut f, "rr", Json::Number(c.rr));
    put(&mut f, "skip_hour0", Json::Bool(c.skip_hour0));
    put(&mut f, "trail_on", Json::Bool(c.trail_on));
    put(&mut f, "ladder", ladder_json(&c.ladder));
    put(&mut f, "symbol", text(c.symbol.as_str()));
    put(&mut f, "sl_mode", text(c.sl_mode()));
    put(&mut f, "fee_maker_pct", Json::Number(c.fee_maker_pct));
    put(&mut f, "fee_taker_pct", Json::Number(c.fee_taker_pct));
    put(&mut f, "sl_slip_pct", Json::Number(c.sl_slip_pct));
    put(&mut f, "legacy_sizing", Json::Bool(c.legacy_sizing));
    put(&mut f, "position_usd", Json::Number(c.position_usd));
    put(&mut f, "risk_pct", Json::Number(c.risk_pct));
    put(&mut f, "leverage_cap", Json::Number(c.leverage_cap));
    put(&mut f, "poll_s", Json::Number(c.poll_s));
    assert(crate::json::fields_view(f@) =~= config_fields(c@));
    Json::Object(f)
}

/// The last bars as the dashboard reads them.
fn recent_bars(bars: &Vec<Bar>) -> (r: Json)
    ensures
        r@ == JsonView::List(
            profile::bar_items(ledger::last_items(bars@, BARS_SHOWN as int)),
        ),
{
    let n: usize = bars.len();
    let from: usize = if n > BARS_SHOWN {
        n - BARS_SHOWN
    } else {
        0
    };
    let mut last: Vec<Bar> = Vec::new();
    let mut i: usize = from;
    assert(bars@.subrange(from as int, from as int) =~= seq![]);
    while i < n
        invariant
            from <= i <= n,
            n == bars@.len(),
            last@ == bars@.subrange(from as int, i as int),
        decreases n - i,
    {
        last.push(bars[i]);
        i = i + 1;
        assert(last@ =~= bars@.subrange(from as int, i as int));
    }
    assert(last@ =~= ledger::last_items(bars@, BARS_SHOWN as int));
    bars_json(last.as_slice())
}

/// The last trades as the dashboard reads them, the newest first.
fn last_trades(log: &Vec<Json>) -> (r: Json)
    ensures
        r@ == JsonView::List(
            ledger::last_items(
                crate::json::items_view(log@),
                TRADES_SHOWN as int,
            ).reverse(),
        ),
{
    let n: usize = log.len();
    let stop: usize = if n > TRADES_SHOWN {
        n - TRADES_SHOWN
    } else {
        0
    };
    let ghost all = crate::json::items_view(log@);
    let ghost shown = ledger::last_items(all, TRADES_SHOWN as int).reverse();
    let mut out: Vec<Json> = Vec::new();
    let mut i: usize = n;
    proof {
        crate::json::lemma_items_view(log@);
        assert(shown.take(0) =~= seq![]);
    }
    while i > stop
        invariant
            stop <= i <= n,
            n == log@.len(),
            n == all.len(),
            stop == if n > TRADES_SHOWN {
                n - TRADES_SHOWN
            } else {
                0
            },
            shown == ledger::last_items(all, TRADES_SHOWN as int).reverse(),
            forall|k: int| 0 <= k < n ==> #[trigger] all[k] == log@[k]@,
            crate::json::items_view(out@) == shown.take(n - i),
        decreases i,
    {
        i = i - 1;
        assert(all[i as int] == log@[i as int]@);
        put_item(&mut out, log[i].copy());
        assert(shown.take(n - i) =~= shown.take(n - i - 1).push(all[i as int]));
    }
    assert(shown.take(n - stop) =~= shown);
    Json::List(out)
}

/// The state and the health that are published at the second `now`.
pub fn publish_state(
    now: i64,
    cfg: &Config,
    strat: &Strategy,
    feed: &RestFeed,
    desk: &Desk,
) -> (r: (Json, Json))
    ensures
        r.0@ == JsonView::Object(
            strat@.state_fields(now) + service_fields(strat@, cfg@, feed@, desk@),
        ),
        r.1@ == JsonView::Object(health_fields(feed@)),
{
    let mut f: Vec<(String, Json)> = strat.state_at(now);
    let ghost head = crate::json::fields_view(f@);
    let mut source: String = cfg.source_label();
    source.append(" (");
    source.append(feed.venue_label());
    source.append(")");
    put(&mut f, "mode", Json::Text(cfg.display_mode()));
    put(&mut f, "symbol", text(cfg.symbol.as_str()));
    put(&mut f, "source", Json::Text(source));
    put(
        &mut f,
        "last_price",
        match feed.last_price {
            Some(p) => Json::Number(p),
            None => match strat.latest_bar() {
                Some(b) => Json::Number(b.c),
                None => Json::Null,
            },
        },
    );
    put(&mut f, "balance", desk.broker.balance());
    put(&mut f, "equity_curve", desk.broker.ledger.equity_curve_json());
    put(&mut f, "recent_bars", recent_bars(&strat.bars));
    put(&mut f, "last_trades", last_trades(&desk.trades_log));
    put(&mut f, "broker_status", desk.broker.status_json());
    put(&mut f, "feed_health", feed.health.to_json());
    put(&mut f, "engine", text(ENGINE_VERSION));
    put(&mut f, "config", config_json(cfg));
    assert(crate::json::fields_view(f@) =~= head + service_fields(strat@, cfg@, feed@, desk@));
    let mut h: Vec<(String, Json)> = Vec::new();
    put(&mut h, "status", text("ok"));
    put(&mut h, "engine", text(ENGINE_VERSION));
    put(&mut h, "feed", feed.health.to_json());
    assert(crate::json::fields_view(h@) =~= health_fields(feed@));
    (Json::Object(f), Json::Object(h))
}

/// The health that is published while the feed does not start.
pub open spec fn starting_fields(error: Seq<char>) -> Seq<(Seq<char>, JsonView)> {
    seq![("status"@, JsonView::Text("bootstrapping"@)), ("error"@, JsonView::Text(error))]
}

/// A price as it is published.
pub open spec fn tick_fields(price: Double, ts: Double) -> Seq<(Seq<char>, JsonView)> {
    seq![("price"@, JsonView::Number(price)), ("ts"@, JsonView::Number(ts))]
}

/// The health that is published while the feed does not start.
pub fn boot_health(error: &str) -> (r: Json)
    ensures
        r@ == JsonView::Object(starting_fields(error@)),
        r@ == JsonView::Object(
            seq![
                ("status"@, JsonView::Text("bootstrapping"@)),
                ("error"@, JsonView::Text(error@)),
            ],
        ),
{
    let mut f: Vec<(String, Json)> = Vec::new();
    put(&mut f, "status", text("bootstrapping"));
    put(&mut f, "error", text(error));
    assert(crate::json::fields_view(f@) =~= seq![
        ("status"@, JsonView::Text("bootstrapping"@)),
        ("error"@, JsonView::Text(error@)),
    ]);
    Json::Object(f)
}

/// A price as it is published.
pub fn tick_json(price: Double, ts: Double) -> (r: Json)
    ensures
        r@ == JsonView::Object(tick_fields(price, ts)),
        r@ == JsonView::Object(
            seq![("price"@, JsonView::Number(price)), ("ts"@, JsonView::Number(ts))],
        ),
{
    let mut f: Vec<(String, Json)> = Vec::new();
    put(&mut f, "price", Json::Number(price));
    put(&mut f, "ts", Json::Number(ts));
    assert(crate::json::fields_view(f@) =~= seq![
        ("price"@, JsonView::Number(price)),
        ("ts"@, JsonView::Number(ts)),
    ]);
    Json::Object(f)
}

/// Seconds between two polls for bars, where so many are asked for.
pub open spec fn poll_pause(asked: Double) -> Double {
    asked.clamped(Double::ratio(1, 2), Double::whole(10))
}

/// Seconds between two polls for the price, where so many are asked for.
pub open spec fn tick_pause(asked: Double) -> Double {
    asked.clamped(Double::ratio(1, 4), Double::whole(10))
}

/// Seconds between two polls for bars.
pub fn poll_seconds(c: &Config) -> (r: Double)
    ensures
        r == poll_pause(c.poll_s),
        r == c.poll_s.clamped(Double::ratio(1, 2), Double::whole(10)),
{
    c.poll_s.clamp(Double::from_ratio(1, 2), Double::from_u64(10))
}

/// Seconds between two polls for the price.
pub fn tick_seconds(c: &Config) -> (r: Double)
    ensures
        r == tick_pause(c.tick_s),
        r == c.tick_s.clamped(Double::ratio(1, 4), Double::whole(10)),
{
    c.tick_s.clamp(Double::from_ratio(1, 4), Double::from_u64(10))
}

// ---------------------------------------------------------------------------
// Laws
// ---------------------------------------------------------------------------

/// Events of the past order nothing: what the exchange is to hold stays as it
/// is, and so does everything else but the ledger and the log of trades.
pub proof fn law_warm_is_quiet(d: DeskView, evs: Seq<EventView>)
    ensures
        ({
            let w = d.warmed_by(evs).broker;
            &&& w.mirror == d.broker.mirror
            &&& w.status == d.broker.status
            &&& w.cfg == d.broker.cfg
            &&& w.cli == d.broker.cli
            &&& w.arm_orders() == d.broker.arm_orders()
        }),
    decreases evs.len(),
{
    if evs.len() > 0 {
        law_warm_is_quiet(d, evs.drop_last());
    }
}

/// Every trade of the past is booked, once.
pub proof fn law_warm_books_every_trade(d: DeskView, evs: Seq<EventView>)
    ensures
        d.warmed_by(evs).broker.ledger.n_trades == d.broker.ledger.n_trades + laws::closes(
            evs,
        ).len(),
        d.warmed_by(evs).trades_log.len() == d.trades_log.len() + laws::closes(evs).len(),
    decreases evs.len(),
{
    if evs.len() > 0 {
        law_warm_books_every_trade(d, evs.drop_last());
    }
}

/// The ledger is the source of truth: what it says after an event does not
/// depend on whether or where orders are mirrored.
pub proof fn law_ledger_ignores_the_mirror(a: DeskView, b: DeskView, ev: EventView)
    requires
        a.broker.ledger == b.broker.ledger,
    ensures
        a.after(ev).broker.ledger == b.after(ev).broker.ledger,
        a.data_of(ev) == b.data_of(ev),
{
}

proof fn lemma_books_of_warm(d: DeskView, evs: Seq<EventView>)
    ensures
        d.warmed_by(evs).broker.ledger == laws::warm_books(d.broker.ledger, evs),
    decreases evs.len(),
{
    if evs.len() > 0 {
        lemma_books_of_warm(d, evs.drop_last());
    }
}

proof fn lemma_books_of_live(d: DeskView, evs: Seq<EventView>)
    ensures
        d.after_all(evs).broker.ledger == laws::live_books(d.broker.ledger, evs),
    decreases evs.len(),
{
    if evs.len() > 0 {
        lemma_books_of_live(d, evs.drop_last());
    }
}

/// A restart comes to the same ledger: what the engine tells of any bars, taken
/// as events of the past, leaves the ledger as it would have been live.
pub proof fn law_restart_keeps_the_ledger(d: DeskView, cfg: CfgView, bars: Seq<Bar>)
    ensures
        ({
            let evs = StrategyView::fresh(cfg).steps(bars).1;
            d.warmed_by(evs).broker.ledger == d.after_all(evs).broker.ledger
        }),
{
    let evs = StrategyView::fresh(cfg).steps(bars).1;
    lemma_books_of_warm(d, evs);
    lemma_books_of_live(d, evs);
    laws::law_restart_books_the_same(cfg, d.broker.ledger, bars);
}

/// The log of trades stays within its bound, and the newest trade is the last.
pub proof fn law_trades_bounded(d: DeskView, told: JsonView)
    requires
        d.trades_log.len() <= TRADES_FULL,
    ensures
        d.with_trade(told).len() <= TRADES_FULL,
        d.with_trade(told).last() == told,
{
}

/// No event leads to an order unless orders are sent.
pub proof fn law_events_order_only_if_allowed(d: DeskView, ev: EventView)
    requires
        !d.broker.trades(),
    ensures
        match d.work_of(ev) {
            WorkView::Nothing => true,
            WorkView::Enter { order, .. } => order is None,
            WorkView::Protect { orders, .. } => orders.len() == 0,
            WorkView::Leave { order, .. } => order is None,
        },
{
}

} // verus!
