//! What is told: every value that is published or shown stands under its name.

use crate::config::ConfigView;
use crate::double::Double;
use crate::engine;
use crate::engine::{EventView, StrategyView, TradeView};
use crate::feed::FeedView;
use crate::hub;
use crate::json::JsonView;
use crate::ledger;
use crate::profile;
use crate::profile::{Bar, ProfileView};
use crate::service;
use crate::service::DeskView;
use vstd::prelude::*;

verus! {

/// A number as it is printed with four decimals and read back.
pub open spec fn four_decimals(x: Double) -> Double {
    x.to_steps(10_000)
}

/// A side in words.
pub open spec fn in_words(side: i8) -> Seq<char> {
    if side == 1 {
        "long"@
    } else {
        "short"@
    }
}

/// A number, or nothing.
pub open spec fn number_or_null(x: Option<Double>) -> JsonView {
    match x {
        Some(y) => JsonView::Number(y),
        None => JsonView::Null,
    }
}

/// A direction, or none.
pub open spec fn way_or_null(x: Option<i8>) -> JsonView {
    match x {
        Some(y) => JsonView::Whole(y as int),
        None => JsonView::Null,
    }
}

/// What is told of a trade: prices and gains with four decimals.
pub proof fn law_trade_is_told(t: TradeView)
    ensures
        ({
            let f = t.fields();
            &&& f.len() == 15
            &&& f.contains(("side"@, JsonView::Text(in_words(t.side))))
            &&& f.contains(("session"@, JsonView::Text(t.session)))
            &&& f.contains(("entry"@, JsonView::Number(four_decimals(t.entry))))
            &&& f.contains(("sl"@, JsonView::Number(four_decimals(t.sl))))
            &&& f.contains(("tp"@, JsonView::Number(four_decimals(t.tp))))
            &&& f.contains(("exit"@, JsonView::Number(four_decimals(t.exit))))
            &&& f.contains(("exit_type"@, JsonView::Text(t.exit_type)))
            &&& f.contains(("rr"@, JsonView::Number(t.rr)))
            &&& f.contains(("slp"@, JsonView::Number(t.slp)))
            &&& f.contains(("pct"@, JsonView::Number(four_decimals(t.pct))))
            &&& f.contains(("r"@, JsonView::Number(four_decimals(t.r))))
            &&& f.contains(("entry_ts"@, JsonView::Whole(t.entry_ts as int)))
            &&& f.contains(("exit_ts"@, JsonView::Whole(t.exit_ts as int)))
            &&& f.contains(("bars_held"@, JsonView::Whole(t.bars_held as int)))
            &&& f.contains(("trail_a"@, JsonView::Number(t.trail_a)))
        }),
{
    let f = t.fields();
    assert(f[0].0 == "side"@);
    assert(f[1].0 == "session"@);
    assert(f[2].0 == "entry"@);
    assert(f[3].0 == "sl"@);
    assert(f[4].0 == "tp"@);
    assert(f[5].0 == "exit"@);
    assert(f[6].0 == "exit_type"@);
    assert(f[7].0 == "rr"@);
    assert(f[8].0 == "slp"@);
    assert(f[9].0 == "pct"@);
    assert(f[10].0 == "r"@);
    assert(f[11].0 == "entry_ts"@);
    assert(f[12].0 == "exit_ts"@);
    assert(f[13].0 == "bars_held"@);
    assert(f[14].0 == "trail_a"@);
}

/// What is told of a close is the trade, and that it is one.
pub proof fn law_close_is_told(t: TradeView)
    ensures
        EventView::Close(t).fields() == t.fields().push(("type"@, JsonView::Text("close"@))),
        EventView::Close(t).json() == JsonView::Object(EventView::Close(t).fields()),
{
}

/// What is told of a session.
pub proof fn law_session_is_told(date: Seq<char>, open: Double, prev_poc: Option<Double>, bias: Option<i8>, ts: int)
    ensures
        ({
            let f = (EventView::Session { date, open, prev_poc, bias, ts }).fields();
            &&& f.len() == 6
            &&& f.contains(("type"@, JsonView::Text("session"@)))
            &&& f.contains(("date"@, JsonView::Text(date)))
            &&& f.contains(("open"@, JsonView::Number(open)))
            &&& f.contains(("prev_poc"@, number_or_null(prev_poc)))
            &&& f.contains(("bias"@, way_or_null(bias)))
            &&& f.contains(("ts"@, JsonView::Whole(ts)))
        }),
{
    let f = (EventView::Session { date, open, prev_poc, bias, ts }).fields();
    assert(f[0].0 == "type"@);
    assert(f[1].0 == "date"@);
    assert(f[2].0 == "open"@);
    assert(f[3].0 == "prev_poc"@);
    assert(f[4].0 == "bias"@);
    assert(f[5].0 == "ts"@);
}

/// What is told of an entry.
pub proof fn law_entry_is_told(ev: EventView)
    requires
        ev is Open,
    ensures
        ({
            let f = ev.fields();
            &&& f.len() == 12
            &&& f.contains(("type"@, JsonView::Text("open"@)))
            &&& f.contains(("side"@, JsonView::Text(in_words(ev->side))))
            &&& f.contains(("session"@, JsonView::Text(ev->session)))
            &&& f.contains(("entry"@, JsonView::Number(ev->entry)))
            &&& f.contains(("sl"@, JsonView::Number(ev->Open_sl)))
            &&& f.contains(("tp"@, JsonView::Number(ev->tp)))
            &&& f.contains(("slp"@, JsonView::Number(ev->slp)))
            &&& f.contains(("rr"@, JsonView::Number(ev->rr)))
            &&& f.contains(("entry_ts"@, JsonView::Whole(ev->entry_ts)))
            &&& f.contains(("entry_hour"@, JsonView::Whole(ev->entry_hour)))
            &&& f.contains(("session_bars_at_entry"@, JsonView::Whole(ev->session_bars_at_entry as int)))
            &&& f.contains(("last_close"@, JsonView::Number(ev->last_close)))
        }),
{
    let f = ev.fields();
    assert(f[0].0 == "type"@);
    assert(f[1].0 == "side"@);
    assert(f[2].0 == "session"@);
    assert(f[3].0 == "entry"@);
    assert(f[4].0 == "sl"@);
    assert(f[5].0 == "tp"@);
    assert(f[6].0 == "slp"@);
    assert(f[7].0 == "rr"@);
    assert(f[8].0 == "entry_ts"@);
    assert(f[9].0 == "entry_hour"@);
    assert(f[10].0 == "session_bars_at_entry"@);
    assert(f[11].0 == "last_close"@);
}

/// What is told of a stop that was drawn along.
pub proof fn law_trail_is_told(ts: int, a: Double, sl: Double)
    ensures
        ({
            let f = (EventView::Trail { ts, a, sl }).fields();
            &&& f.len() == 4
            &&& f.contains(("type"@, JsonView::Text("trail"@)))
            &&& f.contains(("ts"@, JsonView::Whole(ts)))
            &&& f.contains(("a"@, JsonView::Number(a)))
            &&& f.contains(("sl"@, JsonView::Number(sl)))
        }),
{
    let f = (EventView::Trail { ts, a, sl }).fields();
    assert(f[0].0 == "type"@);
    assert(f[1].0 == "ts"@);
    assert(f[2].0 == "a"@);
    assert(f[3].0 == "sl"@);
}

/// What is told of a bar.
pub proof fn law_bar_is_told(b: Bar)
    ensures
        ({
            let f = b.fields();
            &&& f.len() == 6
            &&& f.contains(("ts"@, JsonView::Whole(b.ts as int)))
            &&& f.contains(("o"@, JsonView::Number(b.o)))
            &&& f.contains(("h"@, JsonView::Number(b.h)))
            &&& f.contains(("l"@, JsonView::Number(b.l)))
            &&& f.contains(("c"@, JsonView::Number(b.c)))
            &&& f.contains(("v"@, JsonView::Number(b.v)))
        }),
{
    let f = b.fields();
    assert(f[0].0 == "ts"@);
    assert(f[1].0 == "o"@);
    assert(f[2].0 == "h"@);
    assert(f[3].0 == "l"@);
    assert(f[4].0 == "c"@);
    assert(f[5].0 == "v"@);
}

/// What is told of a profile.
pub proof fn law_profile_is_told(p: ProfileView)
    ensures
        ({
            let f = p.fields();
            &&& f.len() == 6
            &&& f.contains(("hi"@, JsonView::Number(p.hi)))
            &&& f.contains(("lo"@, JsonView::Number(p.lo)))
            &&& f.contains(("w"@, JsonView::Number(p.w)))
            &&& f.contains(("prof"@, JsonView::List(p.prof.map_values(|x: Double| JsonView::Number(x)))))
            &&& f.contains(("poc"@, JsonView::Number(p.poc)))
            &&& f.contains(("start"@, JsonView::Whole(p.start as int)))
        }),
{
    let f = p.fields();
    assert(profile::number_items(p.prof) =~= p.prof.map_values(|x: Double| JsonView::Number(x)));
    assert(f[0].0 == "hi"@);
    assert(f[1].0 == "lo"@);
    assert(f[2].0 == "w"@);
    assert(f[3].0 == "prof"@);
    assert(f[4].0 == "poc"@);
    assert(f[5].0 == "start"@);
}

/// The latest bar is the last of the session, or else the last of all. What an
/// open position would gain is counted to its close.
pub proof fn law_latest_bar(s: StrategyView)
    ensures
        s.session_bars.len() > 0 ==> s.latest() == Some(s.session_bars.last()),
        s.session_bars.len() == 0 && s.bars.len() > 0 ==> s.latest() == Some(s.bars.last()),
        s.session_bars.len() == 0 && s.bars.len() == 0 ==> s.latest() is None,
        s.pos is None ==> s.unrealized() is None,
        s.pos matches Some(p) && p.side == 1 && s.latest() is Some ==> s.unrealized() == Some(
            s.latest()->0.c.quotient(s.pos->0.entry).difference(Double::whole(1)).product(
                Double::whole(100),
            ),
        ),
        s.pos matches Some(p) && p.side == -1 && s.latest() is Some ==> s.unrealized() == Some(
            Double::whole(1).difference(s.latest()->0.c.quotient(s.pos->0.entry)).product(
                Double::whole(100),
            ),
        ),
{
}

/// What the engine is doing: in a position where one is open; else done where the
/// session is traded; else waiting for its first point of control, or for the
/// price to come back to it.
pub proof fn law_phase(s: StrategyView)
    ensures
        s.pos is Some ==> s.phase() == "in_position"@,
        s.pos is None && s.session_traded ==> s.phase() == "session_done"@,
        s.pos is None && !s.session_traded && s.prev_poc is None ==> s.phase() == "bootstrap"@,
        s.pos is None && !s.session_traded && s.prev_poc is Some ==> s.phase()
            == "waiting_trigger"@,
{
}

/// The net gain is the sum of what the trades gained, in their order.
pub proof fn law_net_is_the_sum(trades: Seq<TradeView>, t: TradeView)
    ensures
        StrategyView::net_of(seq![]) == (Double { bits: 0 }),
        StrategyView::net_of(trades.push(t)) == StrategyView::net_of(trades).sum(t.pct),
{
    assert(trades.push(t).drop_last() =~= trades);
}

/// What is told of an open position.
pub proof fn law_position_is_told(s: StrategyView)
    requires
        s.pos is Some,
    ensures
        ({
            let f = s.position_fields();
            &&& f.len() == 10
            &&& f.contains(("side"@, JsonView::Text(in_words(s.pos->0.side))))
            &&& f.contains(("entry"@, JsonView::Number(s.pos->0.entry)))
            &&& f.contains(("sl"@, JsonView::Number(s.pos->0.sl)))
            &&& f.contains(("sl0"@, JsonView::Number(s.pos->0.sl0)))
            &&& f.contains(("tp"@, JsonView::Number(s.pos->0.tp)))
            &&& f.contains(("slp"@, JsonView::Number(s.pos->0.slp)))
            &&& f.contains(("rr"@, JsonView::Number(s.pos->0.rr)))
            &&& f.contains(("runx"@, JsonView::Number(s.pos->0.runx)))
            &&& f.contains(("trail_a"@, JsonView::Number(s.pos->0.trail_a)))
            &&& f.contains(("unreal_pct"@, number_or_null(s.unrealized())))
        }),
{
    let f = s.position_fields();
    assert(f[0].0 == "side"@);
    assert(f[1].0 == "entry"@);
    assert(f[2].0 == "sl"@);
    assert(f[3].0 == "sl0"@);
    assert(f[4].0 == "tp"@);
    assert(f[5].0 == "slp"@);
    assert(f[6].0 == "rr"@);
    assert(f[7].0 == "runx"@);
    assert(f[8].0 == "trail_a"@);
    assert(f[9].0 == "unreal_pct"@);
}

/// What is told of the engine's state.
pub proof fn law_state_is_told(s: StrategyView, now: i64)
    ensures
        ({
            let f = s.state_fields(now);
            &&& f.len() == 16
            &&& f.contains(("time_utc"@, JsonView::Text(crate::calendar::time_text(now as int))))
            &&& f.contains(("session"@, match s.active_sd { Some(x) => JsonView::Text(x), None => JsonView::Null }))
            &&& f.contains(("prev_poc"@, number_or_null(s.prev_poc)))
            &&& f.contains(("bias"@, way_or_null(s.bias)))
            &&& f.contains(("open0"@, JsonView::Number(s.open0)))
            &&& f.contains(("atr"@, number_or_null(s.atr)))
            &&& f.contains(("phase"@, JsonView::Text(s.phase())))
            &&& f.contains(("session_traded"@, JsonView::Bool(s.session_traded)))
            &&& f.contains(("position"@, if s.pos is Some { JsonView::Object(s.position_fields()) } else { JsonView::Null }))
            &&& f.contains(("last_bar"@, match s.latest() { Some(b) => JsonView::Object(b.fields()), None => JsonView::Null }))
            &&& f.contains(("session_bars"@, JsonView::Whole(s.session_bars.len() as int)))
            &&& f.contains(("total_bars"@, JsonView::Whole(s.bars.len() as int)))
            &&& f.contains(("prev_profile"@, match s.prev_prof { Some(p) => JsonView::Object(p.fields()), None => JsonView::Null }))
            &&& f.contains(("prev_session_bars"@, JsonView::List(s.prev_bars.map_values(|b: Bar| JsonView::Object(b.fields())))))
            &&& f.contains(("active_session_bars"@, JsonView::List(s.session_bars.map_values(|b: Bar| JsonView::Object(b.fields())))))
            &&& f.contains(("recent_events"@, JsonView::List(s.recent_events)))
        }),
{
    let f = s.state_fields(now);
    lemma_bars(s.prev_bars);
    lemma_bars(s.session_bars);
    assert(f[0].0 == "time_utc"@);
    assert(f[1].0 == "session"@);
    assert(f[2].0 == "prev_poc"@);
    assert(f[3].0 == "bias"@);
    assert(f[4].0 == "open0"@);
    assert(f[5].0 == "atr"@);
    assert(f[6].0 == "phase"@);
    assert(f[7].0 == "session_traded"@);
    assert(f[8].0 == "position"@);
    assert(f[9].0 == "last_bar"@);
    assert(f[10].0 == "session_bars"@);
    assert(f[11].0 == "total_bars"@);
    assert(f[12].0 == "prev_profile"@);
    assert(f[13].0 == "prev_session_bars"@);
    assert(f[14].0 == "active_session_bars"@);
    assert(f[15].0 == "recent_events"@);
}

proof fn lemma_bars(bars: Seq<Bar>)
    ensures
        profile::bar_items(bars) == bars.map_values(|b: Bar| JsonView::Object(b.fields())),
{
    assert(profile::bar_items(bars) =~= bars.map_values(|b: Bar| JsonView::Object(b.fields())));
}

/// What is told of the configuration.
pub proof fn law_configuration_is_told(c: ConfigView)
    ensures
        ({
            let f = service::config_fields(c);
            &&& f.len() == 14
            &&& f.contains(("rr"@, JsonView::Number(c.rr)))
            &&& f.contains(("skip_hour0"@, JsonView::Bool(c.skip_hour0)))
            &&& f.contains(("trail_on"@, JsonView::Bool(c.trail_on)))
            &&& f.contains(("ladder"@, JsonView::List(service::ladder_items(c.ladder))))
            &&& f.contains(("symbol"@, JsonView::Text(c.symbol)))
            &&& f.contains(("sl_mode"@, JsonView::Text(if c.sl_touch { "touch"@ } else { "close"@ })))
            &&& f.contains(("fee_maker_pct"@, JsonView::Number(c.fee_maker_pct)))
            &&& f.contains(("fee_taker_pct"@, JsonView::Number(c.fee_taker_pct)))
            &&& f.contains(("sl_slip_pct"@, JsonView::Number(c.sl_slip_pct)))
            &&& f.contains(("legacy_sizing"@, JsonView::Bool(c.legacy_sizing)))
            &&& f.contains(("position_usd"@, JsonView::Number(c.position_usd)))
            &&& f.contains(("risk_pct"@, JsonView::Number(c.risk_pct)))
            &&& f.contains(("leverage_cap"@, JsonView::Number(c.leverage_cap)))
            &&& f.contains(("poll_s"@, JsonView::Number(c.poll_s)))
        }),
{
    let f = service::config_fields(c);
    assert(f[0].0 == "rr"@);
    assert(f[1].0 == "skip_hour0"@);
    assert(f[2].0 == "trail_on"@);
    assert(f[3].0 == "ladder"@);
    assert(f[4].0 == "symbol"@);
    assert(f[5].0 == "sl_mode"@);
    assert(f[6].0 == "fee_maker_pct"@);
    assert(f[7].0 == "fee_taker_pct"@);
    assert(f[8].0 == "sl_slip_pct"@);
    assert(f[9].0 == "legacy_sizing"@);
    assert(f[10].0 == "position_usd"@);
    assert(f[11].0 == "risk_pct"@);
    assert(f[12].0 == "leverage_cap"@);
    assert(f[13].0 == "poll_s"@);
}

/// The ladder is told rung by rung: the progress, and then what it earns.
pub proof fn law_ladder_is_told(l: Seq<(Double, Double)>, i: int)
    requires
        0 <= i < l.len(),
    ensures
        service::ladder_items(l).len() == l.len(),
        service::ladder_items(l)[i] == JsonView::List(
            seq![JsonView::Number(l[i].0), JsonView::Number(l[i].1)],
        ),
{
}

/// The last price is that of the feed, or else the latest close.
pub proof fn law_last_price(s: StrategyView, f: FeedView)
    ensures
        f.last_price matches Some(p) ==> service::price_json(s, f) == JsonView::Number(p),
        f.last_price is None && s.latest() is Some ==> service::price_json(s, f)
            == JsonView::Number(s.latest()->0.c),
        f.last_price is None && s.latest() is None ==> service::price_json(s, f) == JsonView::Null,
{
}

/// The last items of a list are its end, in order, as many as are asked for.
pub proof fn law_last_items<T>(s: Seq<T>, max: int)
    requires
        0 <= max,
    ensures
        s.len() <= max ==> ledger::last_items(s, max) == s,
        s.len() > max ==> ledger::last_items(s, max).len() == max && forall|i: int|
            0 <= i < max ==> #[trigger] ledger::last_items(s, max)[i] == s[s.len() - max + i],
{
}

/// What the service tells beside the engine's state.
pub proof fn law_service_is_told(s: StrategyView, c: ConfigView, f0: FeedView, d: DeskView)
    ensures
        ({
            let f = service::service_fields(s, c, f0, d);
            &&& f.len() == 12
            &&& f.contains(("mode"@, JsonView::Text(c.shown_mode())))
            &&& f.contains(("symbol"@, JsonView::Text(c.symbol)))
            &&& f.contains(("source"@, JsonView::Text(c.source_text() + " ("@ + f0.label() + ")"@)))
            &&& f.contains(("last_price"@, service::price_json(s, f0)))
            &&& f.contains(("balance"@, JsonView::Object(d.broker.ledger.balance_fields(d.broker.cfg.mode_text(), d.broker.mirror matches Some(m) && m.armed))))
            &&& f.contains(("equity_curve"@, JsonView::List(ledger::curve_items(d.broker.ledger.curve))))
            &&& f.contains(("recent_bars"@, JsonView::List(ledger::last_items(s.bars, 240).map_values(|b: Bar| JsonView::Object(b.fields())))))
            &&& f.contains(("last_trades"@, JsonView::List(ledger::last_items(d.trades_log, 40).reverse())))
            &&& f.contains(("broker_status"@, JsonView::List(ledger::last_items(d.broker.status, 20).reverse())))
            &&& f.contains(("feed_health"@, JsonView::Object(f0.health.fields())))
            &&& f.contains(("engine"@, JsonView::Text(crate::http::ENGINE_VERSION@)))
            &&& f.contains(("config"@, JsonView::Object(service::config_fields(c))))
        }),
{
    let f = service::service_fields(s, c, f0, d);
    lemma_bars(ledger::last_items(s.bars, 240));
    assert(f[0].0 == "mode"@);
    assert(f[1].0 == "symbol"@);
    assert(f[2].0 == "source"@);
    assert(f[3].0 == "last_price"@);
    assert(f[4].0 == "balance"@);
    assert(f[5].0 == "equity_curve"@);
    assert(f[6].0 == "recent_bars"@);
    assert(f[7].0 == "last_trades"@);
    assert(f[8].0 == "broker_status"@);
    assert(f[9].0 == "feed_health"@);
    assert(f[10].0 == "engine"@);
    assert(f[11].0 == "config"@);
}

/// A message says its kind, its time and its data.
pub proof fn law_message(kind: Seq<char>, ts: Double, data: JsonView)
    ensures
        hub::envelope(kind, ts, data) == seq![
            ("type"@, JsonView::Text(kind)),
            ("ts"@, JsonView::Number(ts)),
            ("data"@, data),
        ],
{
}

/// An event is published under its kind. A close is published with what it came
/// to in the ledger, any other event as it is.
pub proof fn law_event_is_published(d: DeskView, ev: EventView)
    ensures
        ev is Session ==> service::kind_of(ev) == "session"@,
        ev is Open ==> service::kind_of(ev) == "open"@,
        ev is Trail ==> service::kind_of(ev) == "trail"@,
        ev is Close ==> service::kind_of(ev) == "close"@,
        ev matches EventView::Close(t) ==> d.data_of(ev) == JsonView::Object(
            d.broker.ledger.close_fields(t),
        ),
        !(ev is Close) ==> d.data_of(ev) == JsonView::Object(ev.fields()),
{
}

/// What an event does to the desk. A session changes nothing; an entry is sized
/// and mirrored with the levels that it has; a stop that was drawn along is
/// mirrored; a close is booked, and goes into the log of trades as it was told.
pub proof fn law_desk_follows_the_events(d: DeskView, ev: EventView)
    ensures
        ev is Session ==> d.after(ev) == d,
        ev is Open ==> d.after(ev).broker == d.broker.opened(
            ev->side,
            ev->entry,
            ev->Open_sl,
            ev->tp,
            ev->slp,
        ) && d.after(ev).trades_log == d.trades_log,
        ev is Trail ==> d.after(ev).broker == d.broker.trailed(ev->Trail_sl) && d.after(
            ev,
        ).trades_log == d.trades_log,
        ev matches EventView::Close(t) ==> {
            &&& d.after(ev).broker == d.broker.closed(t)
            &&& d.after(ev).trades_log.len() > 0
            &&& d.after(ev).trades_log.last() == d.data_of(ev)
            &&& d.trades_log.len() < 400 ==> d.after(ev).trades_log == d.trades_log.push(
                d.data_of(ev),
            )
        },
{
}

/// The events that are kept for the dashboard are the newest: the last one is the
/// newest of all, they are the end of all that were told, and fewer than four
/// hundred. As long as they are fewer than that none is dropped, and then a
/// hundred at once.
pub proof fn law_kept_events(events: Seq<JsonView>, ev: JsonView)
    requires
        events.len() < 400,
    ensures
        ({
            let k = engine::kept(events, ev);
            let all = events.push(ev);
            &&& 0 < k.len() < 400
            &&& k.last() == ev
            &&& events.len() < 399 ==> k == all
            &&& events.len() == 399 ==> k == all.skip(100)
        }),
{
}

/// The trades that are told are kept up to four hundred; one more leaves the newest
/// three hundred.
pub proof fn law_kept_trades(d: DeskView, told: JsonView)
    requires
        d.trades_log.len() <= 400,
    ensures
        ({
            let all = d.trades_log.push(told);
            &&& d.trades_log.len() < 400 ==> d.with_trade(told) == all
            &&& d.trades_log.len() == 400 ==> d.with_trade(told) == all.skip(101)
        }),
{
}

} // verus!
