//! The trading engine: one trade per session at the point of control of the
//! session before, with a stop scaled by the average true range, a stop that
//! is drawn along as the trade makes progress, and no position past the end of
//! the session.

use crate::calendar;
use crate::calendar::{hour_of, iso_utc, session_date_key, session_start_ts, session_weekday};
use crate::clock::now_ts;
use crate::double::Double;
use crate::json::{optional_number, put, put_item, text, Json, JsonView};
use crate::profile;
use crate::profile::{bars_json, compute_poc, Bar, Profile, ProfileView};
use crate::text::same;
use std::collections::VecDeque;
use vstd::prelude::*;
use vstd::std_specs::vecdeque::*;
use vstd::string::*;

verus! {

/// The side of a long trade.
pub const LONG: i8 = 1;

/// The side of a short trade.
pub const SHORT: i8 = -1;

/// The time of the last bar before there is one.
pub const BEFORE_ANY_BAR: i64 = -1;

/// Bars that the average true range is smoothed over.
pub const ATR_N: u64 = 14;

/// Most events that are kept for the dashboard.
pub const EVENTS_KEPT: usize = 400;

/// Events that leave at once when that many are held.
pub const EVENTS_DROPPED: usize = 100;

/// The least stop distance, as a share of the entry price: 0.0005.
pub open spec fn sl_min() -> Double {
    Double::ratio(5, 10_000)
}

/// The greatest stop distance, as a share of the entry price: 0.005.
pub open spec fn sl_max() -> Double {
    Double::ratio(5, 1_000)
}

pub open spec fn one() -> Double {
    Double::whole(1)
}

pub open spec fn hundred() -> Double {
    Double::whole(100)
}

/// A closed trade. The side is 1 for a long trade and -1 for a short one.
#[derive(Debug)]
pub struct Trade {
    pub session: String,
    pub side: i8,
    pub entry: Double,
    pub sl: Double,
    pub tp: Double,
    pub exit: Double,
    pub exit_type: String,
    pub rr: Double,
    pub slp: Double,
    pub pct: Double,
    pub r: Double,
    pub entry_ts: i64,
    pub exit_ts: i64,
    pub bars_held: i64,
    pub trail_a: Double,
}

/// What a trade says.
pub struct TradeView {
    pub session: Seq<char>,
    pub side: i8,
    pub entry: Double,
    pub sl: Double,
    pub tp: Double,
    pub exit: Double,
    pub exit_type: Seq<char>,
    pub rr: Double,
    pub slp: Double,
    pub pct: Double,
    pub r: Double,
    pub entry_ts: i64,
    pub exit_ts: i64,
    pub bars_held: i64,
    pub trail_a: Double,
}

impl View for Trade {
    type V = TradeView;

    open spec fn view(&self) -> TradeView {
        TradeView {
            session: self.session@,
            side: self.side,
            entry: self.entry,
            sl: self.sl,
            tp: self.tp,
            exit: self.exit,
            exit_type: self.exit_type@,
            rr: self.rr,
            slp: self.slp,
            pct: self.pct,
            r: self.r,
            entry_ts: self.entry_ts,
            exit_ts: self.exit_ts,
            bars_held: self.bars_held,
            trail_a: self.trail_a,
        }
    }
}

impl Clone for Trade {
    fn clone(&self) -> (r: Trade)
        ensures
            r@ == self@,
    {
        Trade {
            session: self.session.clone(),
            side: self.side,
            entry: self.entry,
            sl: self.sl,
            tp: self.tp,
            exit: self.exit,
            exit_type: self.exit_type.clone(),
            rr: self.rr,
            slp: self.slp,
            pct: self.pct,
            r: self.r,
            entry_ts: self.entry_ts,
            exit_ts: self.exit_ts,
            bars_held: self.bars_held,
            trail_a: self.trail_a,
        }
    }
}

/// The name of a side.
pub open spec fn side_name(side: i8) -> Seq<char> {
    if side == LONG {
        "long"@
    } else {
        "short"@
    }
}

/// The name of a side: `long` for 1, `short` for anything else.
pub fn side_text(side: i8) -> (r: &'static str)
    ensures
        r@ == side_name(side),
{
    if side == LONG {
        "long"
    } else {
        "short"
    }
}

/// A number as it is printed with four decimals and read back.
pub open spec fn rounded4(x: Double) -> Double {
    x.to_steps(10_000)
}

fn round4(x: Double) -> (r: Double)
    ensures
        r == rounded4(x),
{
    x.round_to_steps(10_000)
}

impl TradeView {
    /// The fields of the trade as JSON says them.
    pub open spec fn fields(self) -> Seq<(Seq<char>, JsonView)> {
        seq![
            ("side"@, JsonView::Text(side_name(self.side))),
            ("session"@, JsonView::Text(self.session)),
            ("entry"@, JsonView::Number(rounded4(self.entry))),
            ("sl"@, JsonView::Number(rounded4(self.sl))),
            ("tp"@, JsonView::Number(rounded4(self.tp))),
            ("exit"@, JsonView::Number(rounded4(self.exit))),
            ("exit_type"@, JsonView::Text(self.exit_type)),
            ("rr"@, JsonView::Number(self.rr)),
            ("slp"@, JsonView::Number(self.slp)),
            ("pct"@, JsonView::Number(rounded4(self.pct))),
            ("r"@, JsonView::Number(rounded4(self.r))),
            ("entry_ts"@, JsonView::Whole(self.entry_ts as int)),
            ("exit_ts"@, JsonView::Whole(self.exit_ts as int)),
            ("bars_held"@, JsonView::Whole(self.bars_held as int)),
            ("trail_a"@, JsonView::Number(self.trail_a)),
        ]
    }
}

impl Trade {
    fn json_fields(&self) -> (f: Vec<(String, Json)>)
        ensures
            crate::json::fields_view(f@) == self@.fields(),
    {
        let mut f: Vec<(String, Json)> = Vec::new();
        put(&mut f, "side", text(side_text(self.side)));
        put(&mut f, "session", text(self.session.as_str()));
        put(&mut f, "entry", Json::Number(round4(self.entry)));
        put(&mut f, "sl", Json::Number(round4(self.sl)));
        put(&mut f, "tp", Json::Number(round4(self.tp)));
        put(&mut f, "exit", Json::Number(round4(self.exit)));
        put(&mut f, "exit_type", text(self.exit_type.as_str()));
        put(&mut f, "rr", Json::Number(self.rr));
        put(&mut f, "slp", Json::Number(self.slp));
        put(&mut f, "pct", Json::Number(round4(self.pct)));
        put(&mut f, "r", Json::Number(round4(self.r)));
        put(&mut f, "entry_ts", Json::Int(self.entry_ts));
        put(&mut f, "exit_ts", Json::Int(self.exit_ts));
        put(&mut f, "bars_held", Json::Int(self.bars_held));
        put(&mut f, "trail_a", Json::Number(self.trail_a));
        f
    }

    /// The trade as the dashboard reads it.
    pub fn to_json(&self) -> (r: Json)
        ensures
            r@ == JsonView::Object(self@.fields()),
    {
        Json::Object(self.json_fields())
    }
}

/// What happened while the engine took a bar.
#[derive(Debug)]
pub enum Event {
    Session {
        date: String,
        open: Double,
        prev_poc: Option<Double>,
        bias: Option<i8>,
        ts: i64,
    },
    Open {
        side: i8,
        session: String,
        entry: Double,
        sl: Double,
        tp: Double,
        slp: Double,
        rr: Double,
        entry_ts: i64,
        entry_hour: i64,
        session_bars_at_entry: usize,
        last_close: Double,
    },
    Trail { ts: i64, a: Double, sl: Double },
    Close(Trade),
}

/// What an event says.
pub enum EventView {
    Session {
        date: Seq<char>,
        open: Double,
        prev_poc: Option<Double>,
        bias: Option<i8>,
        ts: int,
    },
    Open {
        side: i8,
        session: Seq<char>,
        entry: Double,
        sl: Double,
        tp: Double,
        slp: Double,
        rr: Double,
        entry_ts: int,
        entry_hour: int,
        session_bars_at_entry: nat,
        last_close: Double,
    },
    Trail { ts: int, a: Double, sl: Double },
    Close(TradeView),
}

impl View for Event {
    type V = EventView;

    open spec fn view(&self) -> EventView {
        match self {
            Event::Session { date, open, prev_poc, bias, ts } => EventView::Session {
                date: date@,
                open: *open,
                prev_poc: *prev_poc,
                bias: *bias,
                ts: *ts as int,
            },
            Event::Open {
                side,
                session,
                entry,
                sl,
                tp,
                slp,
                rr,
                entry_ts,
                entry_hour,
                session_bars_at_entry,
                last_close,
            } => EventView::Open {
                side: *side,
                session: session@,
                entry: *entry,
                sl: *sl,
                tp: *tp,
                slp: *slp,
                rr: *rr,
                entry_ts: *entry_ts as int,
                entry_hour: *entry_hour as int,
                session_bars_at_entry: *session_bars_at_entry as nat,
                last_close: *last_close,
            },
            Event::Trail { ts, a, sl } => EventView::Trail { ts: *ts as int, a: *a, sl: *sl },
            Event::Close(t) => EventView::Close(t@),
        }
    }
}

/// What the events of a list say.
pub open spec fn events_view(evs: Seq<Event>) -> Seq<EventView> {
    evs.map_values(|e: Event| e@)
}

impl EventView {
    /// The event as JSON says it.
    pub open spec fn json(self) -> JsonView {
        JsonView::Object(self.fields())
    }

    pub open spec fn fields(self) -> Seq<(Seq<char>, JsonView)> {
        match self {
            EventView::Session { date, open, prev_poc, bias, ts } => seq![
                ("type"@, JsonView::Text("session"@)),
                ("date"@, JsonView::Text(date)),
                ("open"@, JsonView::Number(open)),
                ("prev_poc"@, JsonView::of_number(prev_poc)),
                ("bias"@, bias_json(bias)),
                ("ts"@, JsonView::Whole(ts)),
            ],
            EventView::Open {
                side,
                session,
                entry,
                sl,
                tp,
                slp,
                rr,
                entry_ts,
                entry_hour,
                session_bars_at_entry,
                last_close,
            } => seq![
                ("type"@, JsonView::Text("open"@)),
                ("side"@, JsonView::Text(side_name(side))),
                ("session"@, JsonView::Text(session)),
                ("entry"@, JsonView::Number(entry)),
                ("sl"@, JsonView::Number(sl)),
                ("tp"@, JsonView::Number(tp)),
                ("slp"@, JsonView::Number(slp)),
                ("rr"@, JsonView::Number(rr)),
                ("entry_ts"@, JsonView::Whole(entry_ts)),
                ("entry_hour"@, JsonView::Whole(entry_hour)),
                ("session_bars_at_entry"@, JsonView::Whole(session_bars_at_entry as int)),
                ("last_close"@, JsonView::Number(last_close)),
            ],
            EventView::Trail { ts, a, sl } => seq![
                ("type"@, JsonView::Text("trail"@)),
                ("ts"@, JsonView::Whole(ts)),
                ("a"@, JsonView::Number(a)),
                ("sl"@, JsonView::Number(sl)),
            ],
            EventView::Close(t) => t.fields().push(("type"@, JsonView::Text("close"@))),
        }
    }
}

/// The direction of a session as the dashboard reads it.
pub open spec fn bias_json(bias: Option<i8>) -> JsonView {
    match bias {
        Some(b) => JsonView::Whole(b as int),
        None => JsonView::Null,
    }
}

fn bias_to_json(bias: Option<i8>) -> (r: Json)
    ensures
        r@ == bias_json(bias),
{
    match bias {
        Some(b) => Json::Int(b as i64),
        None => Json::Null,
    }
}

impl Event {
    /// The event as it is published.
    pub fn to_json(&self) -> (r: Json)
        ensures
            r@ == self@.json(),
    {
        let mut f: Vec<(String, Json)> = Vec::new();
        match self {
            Event::Session { date, open, prev_poc, bias, ts } => {
                put(&mut f, "type", text("session"));
                put(&mut f, "date", text(date.as_str()));
                put(&mut f, "open", Json::Number(*open));
                put(&mut f, "prev_poc", optional_number(*prev_poc));
                put(&mut f, "bias", bias_to_json(*bias));
                put(&mut f, "ts", Json::Int(*ts));
                assert(crate::json::fields_view(f@) =~= self@.fields());
                Json::Object(f)
            },
            Event::Open {
                side,
                session,
                entry,
                sl,
                tp,
                slp,
                rr,
                entry_ts,
                entry_hour,
                session_bars_at_entry,
                last_close,
            } => {
                put(&mut f, "type", text("open"));
                put(&mut f, "side", text(side_text(*side)));
                put(&mut f, "session", text(session.as_str()));
                put(&mut f, "entry", Json::Number(*entry));
                put(&mut f, "sl", Json::Number(*sl));
                put(&mut f, "tp", Json::Number(*tp));
                put(&mut f, "slp", Json::Number(*slp));
                put(&mut f, "rr", Json::Number(*rr));
                put(&mut f, "entry_ts", Json::Int(*entry_ts));
                put(&mut f, "entry_hour", Json::Int(*entry_hour));
                put(&mut f, "session_bars_at_entry", Json::Uint(*session_bars_at_entry as u64));
                put(&mut f, "last_close", Json::Number(*last_close));
                assert(crate::json::fields_view(f@) =~= self@.fields());
                Json::Object(f)
            },
            Event::Trail { ts, a, sl } => {
                put(&mut f, "type", text("trail"));
                put(&mut f, "ts", Json::Int(*ts));
                put(&mut f, "a", Json::Number(*a));
                put(&mut f, "sl", Json::Number(*sl));
                assert(crate::json::fields_view(f@) =~= self@.fields());
                Json::Object(f)
            },
            Event::Close(t) => {
                let mut g: Vec<(String, Json)> = t.json_fields();
                put(&mut g, "type", text("close"));
                assert(crate::json::fields_view(g@) =~= self@.fields());
                Json::Object(g)
            },
        }
    }
}


/// How the engine trades.
pub struct StrategyCfg {
    /// Profit target in units of the stop distance.
    pub rr: Double,
    /// No entries between 00:00 and 01:00 UTC.
    pub skip_hour0: bool,
    pub trail_on: bool,
    /// Progress towards the target, and the stop it earns in units of the stop
    /// distance.
    pub ladder: Vec<(Double, Double)>,
    /// Whether the entry bar itself may close the trade.
    pub same_bar_exits: bool,
    /// Stop and target both fill on touch, as an exchange fills them. Otherwise
    /// a long trade is stopped by a close and a short one takes profit by a
    /// close.
    pub sl_touch: bool,
}

/// What the engine's settings say.
pub struct CfgView {
    pub rr: Double,
    pub skip_hour0: bool,
    pub trail_on: bool,
    pub ladder: Seq<(Double, Double)>,
    pub same_bar_exits: bool,
    pub sl_touch: bool,
}

impl View for StrategyCfg {
    type V = CfgView;

    open spec fn view(&self) -> CfgView {
        CfgView {
            rr: self.rr,
            skip_hour0: self.skip_hour0,
            trail_on: self.trail_on,
            ladder: self.ladder@,
            same_bar_exits: self.same_bar_exits,
            sl_touch: self.sl_touch,
        }
    }
}

/// The ladder 0.6:0.1, 0.75:0.4, 0.9:0.7.
pub open spec fn default_rungs() -> Seq<(Double, Double)> {
    seq![
        (Double::ratio(6, 10), Double::ratio(1, 10)),
        (Double::ratio(75, 100), Double::ratio(4, 10)),
        (Double::ratio(9, 10), Double::ratio(7, 10)),
    ]
}

/// The ladder that holds where none is set.
pub fn default_ladder() -> (r: Vec<(Double, Double)>)
    ensures
        r@ == default_rungs(),
{
    let mut out: Vec<(Double, Double)> = Vec::new();
    out.push((Double::from_ratio(6, 10), Double::from_ratio(1, 10)));
    out.push((Double::from_ratio(75, 100), Double::from_ratio(4, 10)));
    out.push((Double::from_ratio(9, 10), Double::from_ratio(7, 10)));
    out
}

impl Default for StrategyCfg {
    fn default() -> (r: StrategyCfg)
        ensures
            r@ == (CfgView {
                rr: Double::whole(2),
                skip_hour0: true,
                trail_on: true,
                ladder: default_rungs(),
                same_bar_exits: true,
                sl_touch: true,
            }),
    {
        StrategyCfg {
            rr: Double::from_u64(2),
            skip_hour0: true,
            trail_on: true,
            ladder: default_ladder(),
            same_bar_exits: true,
            sl_touch: true,
        }
    }
}

/// An open position.
#[derive(Debug)]
pub struct Pos {
    pub side: i8,
    pub entry: Double,
    /// The stop as it stands.
    pub sl: Double,
    /// The stop at entry.
    pub sl0: Double,
    pub tp: Double,
    /// The stop distance as a share of the entry price.
    pub slp: Double,
    pub session: String,
    pub entry_ts: i64,
    pub rr: Double,
    /// The best price since entry.
    pub runx: Double,
    /// The rung of the ladder that was reached, by what it earns.
    pub trail_a: Double,
    pub bars_held: i64,
}

/// What a position says.
pub struct PosView {
    pub side: i8,
    pub entry: Double,
    pub sl: Double,
    pub sl0: Double,
    pub tp: Double,
    pub slp: Double,
    pub session: Seq<char>,
    pub entry_ts: i64,
    pub rr: Double,
    pub runx: Double,
    pub trail_a: Double,
    pub bars_held: i64,
}

impl View for Pos {
    type V = PosView;

    open spec fn view(&self) -> PosView {
        PosView {
            side: self.side,
            entry: self.entry,
            sl: self.sl,
            sl0: self.sl0,
            tp: self.tp,
            slp: self.slp,
            session: self.session@,
            entry_ts: self.entry_ts,
            rr: self.rr,
            runx: self.runx,
            trail_a: self.trail_a,
            bars_held: self.bars_held,
        }
    }
}

/// The price on the way from entry to target at the share `prog`.
pub open spec fn milestone(p: PosView, prog: Double) -> Double {
    p.entry.sum(p.tp.difference(p.entry).product(prog))
}

/// Whether the best price since entry has reached `price`.
pub open spec fn reached(p: PosView, price: Double) -> bool {
    if p.side == LONG {
        price.at_most(p.runx)
    } else {
        p.runx.at_most(price)
    }
}

/// What the first `n` rungs of the ladder have earned the position.
pub open spec fn earned(p: PosView, ladder: Seq<(Double, Double)>, n: nat) -> Double
    decreases n,
{
    if n == 0 {
        p.trail_a
    } else {
        let best = earned(p, ladder, (n - 1) as nat);
        let (prog, a) = ladder[n - 1];
        if reached(p, milestone(p, prog)) && best.below(a) {
            a
        } else {
            best
        }
    }
}

impl PosView {
    /// The position one bar later, its best price brought up to date.
    pub open spec fn run(self, b: Bar) -> PosView {
        PosView {
            bars_held: (self.bars_held + 1) as i64,
            runx: if self.side == LONG {
                self.runx.larger(b.h)
            } else {
                self.runx.smaller(b.l)
            },
            ..self
        }
    }

    /// The stop that the rung worth `a` earns.
    pub open spec fn stop_for(self, a: Double) -> Double {
        let step = a.product(self.slp).product(self.entry);
        if self.side == LONG {
            self.entry.sum(step)
        } else {
            self.entry.difference(step)
        }
    }

    /// The position with its stop drawn along to the rung worth `a`.
    pub open spec fn trailed(self, a: Double) -> PosView {
        PosView {
            trail_a: a,
            sl: if self.side == LONG {
                self.sl.larger(self.stop_for(a))
            } else {
                self.sl.smaller(self.stop_for(a))
            },
            ..self
        }
    }

    /// Whether the bar takes the stop.
    pub open spec fn stopped(self, b: Bar, touch: bool) -> bool {
        if self.side == LONG {
            (if touch {
                b.l
            } else {
                b.c
            }).at_most(self.sl)
        } else {
            self.sl.at_most(b.h)
        }
    }

    /// Whether the bar takes the target.
    pub open spec fn targeted(self, b: Bar, touch: bool) -> bool {
        if self.side == LONG {
            self.tp.at_most(b.h)
        } else {
            (if touch {
                b.l
            } else {
                b.c
            }).at_most(self.tp)
        }
    }

    /// The trade that closing the position at `fill` makes.
    pub open spec fn closed(self, exit_type: Seq<char>, fill: Double, ts: i64) -> TradeView {
        let pct = gain_pct(self.side, self.entry, fill);
        TradeView {
            session: self.session,
            side: self.side,
            entry: self.entry,
            sl: self.sl0,
            tp: self.tp,
            exit: fill,
            exit_type,
            rr: self.rr,
            slp: self.slp,
            pct,
            r: pct.quotient(self.slp.product(hundred())),
            entry_ts: self.entry_ts,
            exit_ts: ts,
            bars_held: self.bars_held,
            trail_a: self.trail_a,
        }
    }
}

/// What a position gains from `entry` to `price`, in percent.
pub open spec fn gain_pct(side: i8, entry: Double, price: Double) -> Double {
    if side == LONG {
        price.quotient(entry).difference(one()).product(hundred())
    } else {
        one().difference(price.quotient(entry)).product(hundred())
    }
}

/// The true range of a bar after a close at `prev_c`.
pub open spec fn true_range(prev_c: Option<Double>, b: Bar) -> Double {
    let own = b.h.difference(b.l);
    match prev_c {
        None => own,
        Some(pc) => own.larger(b.h.difference(pc).absolute()).larger(
            b.l.difference(pc).absolute(),
        ),
    }
}

/// The average true range after one more bar.
pub open spec fn next_atr(atr: Option<Double>, tr: Double) -> Double {
    match atr {
        None => tr,
        Some(a) => a.product(Double::whole(ATR_N as int).difference(one())).sum(tr).quotient(
            Double::whole(ATR_N as int),
        ),
    }
}

/// Whether a session of the second `ts` is traded: those of Sunday to Thursday are.
pub open spec fn trading_day(ts: int) -> bool {
    let wd = calendar::weekday(calendar::session_day(ts));
    wd == 6 || wd == 0 || wd == 1 || wd == 2 || wd == 3
}

/// The date key of the session of the second `ts`.
pub open spec fn date_key(ts: int) -> Seq<char> {
    calendar::date_text(calendar::civil(calendar::session_day(ts)))
}

/// The kept events after one more.
pub open spec fn kept(events: Seq<JsonView>, ev: JsonView) -> Seq<JsonView> {
    let all = events.push(ev);
    let held = if all.len() > EVENTS_KEPT {
        all.skip(all.len() - EVENTS_KEPT)
    } else {
        all
    };
    if held.len() == EVENTS_KEPT {
        held.skip(EVENTS_DROPPED as int)
    } else {
        held
    }
}

/// The engine's state.
pub struct StrategyView {
    pub cfg: CfgView,
    pub bars: Seq<Bar>,
    pub atr: Option<Double>,
    pub prev_c: Option<Double>,
    pub prev_poc: Option<Double>,
    pub prev_prof: Option<ProfileView>,
    pub prev_bars: Seq<Bar>,
    pub active_sd: Option<Seq<char>>,
    pub active_start: i64,
    pub session_bars: Seq<Bar>,
    pub open0: Double,
    pub bias: Option<i8>,
    pub session_traded: bool,
    pub eos_done: bool,
    pub last_bar_ts: i64,
    pub pos: Option<PosView>,
    pub trades: Seq<TradeView>,
    pub recent_events: Seq<JsonView>,
}

impl StrategyView {
    /// The state before any bar.
    pub open spec fn fresh(cfg: CfgView) -> StrategyView {
        StrategyView {
            cfg,
            bars: seq![],
            atr: None,
            prev_c: None,
            prev_poc: None,
            prev_prof: None,
            prev_bars: seq![],
            active_sd: None,
            active_start: 0,
            session_bars: seq![],
            open0: Double { bits: 0 },
            bias: None,
            session_traded: false,
            eos_done: false,
            last_bar_ts: BEFORE_ANY_BAR,
            pos: None,
            trades: seq![],
            recent_events: seq![],
        }
    }

    /// What holds of every state that bars lead to. A position belongs to the
    /// active session, which has bars, and has been held for no more bars than
    /// there are seconds since its entry, for no two bars share a second.
    pub open spec fn wf(self) -> bool {
        &&& self.last_bar_ts >= -1
        &&& self.session_bars.len() > 0 ==> self.last_bar_ts >= 0
        &&& self.prev_poc is Some ==> self.last_bar_ts >= 1
        &&& self.eos_done ==> self.pos is None
        &&& self.pos matches Some(p) ==> {
            &&& p.entry_ts >= 1
            &&& 0 <= p.bars_held <= self.last_bar_ts - p.entry_ts + 1
            &&& self.active_sd == Some(p.session)
            &&& self.session_traded
            &&& self.session_bars.len() > 0
        }
    }

    /// The state with an event kept for the dashboard.
    pub open spec fn told(self, ev: EventView) -> StrategyView {
        StrategyView { recent_events: kept(self.recent_events, ev.json()), ..self }
    }

    /// The state with a bar taken into the history and the average true range.
    pub open spec fn taken(self, b: Bar) -> StrategyView {
        StrategyView {
            bars: self.bars.push(b),
            last_bar_ts: b.ts,
            atr: Some(next_atr(self.atr, true_range(self.prev_c, b))),
            prev_c: Some(b.c),
            ..self
        }
    }

    /// The close of the last bar of the session, or `other` where it has none.
    pub open spec fn last_close_or(self, other: Double) -> Double {
        if self.session_bars.len() > 0 {
            self.session_bars.last().c
        } else {
            other
        }
    }

    /// The trade that closing the position makes.
    pub open spec fn closing(self, exit_type: Seq<char>, fill: Double, ts: i64) -> TradeView {
        self.pos->0.closed(exit_type, fill, ts)
    }

    /// The state with the position closed.
    pub open spec fn flat(self, exit_type: Seq<char>, fill: Double, ts: i64) -> StrategyView {
        let t = self.closing(exit_type, fill, ts);
        StrategyView { pos: None, trades: self.trades.push(t), ..self }.told(EventView::Close(t))
    }

    /// The state with a session opened by the bar `b`.
    pub open spec fn session_opened(self, b: Bar) -> StrategyView {
        StrategyView {
            active_sd: Some(date_key(b.ts as int)),
            active_start: (calendar::session_day(b.ts as int) * 86_400 + 22 * 3_600) as i64,
            session_bars: seq![],
            open0: b.o,
            bias: None,
            session_traded: false,
            eos_done: false,
            ..self
        }
    }

    /// The state with the session's profile kept as that of the session before.
    pub open spec fn profiled(self) -> StrategyView {
        let prof = if self.session_bars.len() > 0 {
            profile::profile_of(self.session_bars, self.active_start)
        } else {
            None
        };
        StrategyView {
            prev_prof: prof,
            prev_poc: match prof {
                Some(p) => Some(p.poc),
                None => None,
            },
            prev_bars: self.session_bars,
            ..self
        }
    }

    /// The direction of a session that opened at `open` with that point of
    /// control before it.
    pub open spec fn bias_of(prev_poc: Option<Double>, open: Double) -> Option<i8> {
        match prev_poc {
            Some(p) => Some(
                if p.at_most(open) {
                    LONG
                } else {
                    SHORT
                },
            ),
            None => None,
        }
    }

    /// The event that tells of the new session.
    pub open spec fn session_event(self) -> EventView {
        EventView::Session {
            date: self.active_sd->0,
            open: self.open0,
            prev_poc: self.prev_poc,
            bias: self.bias,
            ts: self.active_start as int,
        }
    }

    /// The state with the session of the bar `b` in place, and what was told:
    /// at a session boundary a position is closed at the last close, the ended
    /// session becomes the profile, and the new one gets its direction.
    pub open spec fn in_session(self, b: Bar) -> (StrategyView, Seq<EventView>) {
        if self.active_sd is None {
            (self.session_opened(b), seq![])
        } else if self.active_sd == Some(date_key(b.ts as int)) {
            (self, seq![])
        } else {
            let fill = self.last_close_or(b.o);
            let (s1, e1) = if self.pos is Some {
                (
                    self.flat("EOS"@, fill, b.ts),
                    seq![EventView::Close(self.closing("EOS"@, fill, b.ts))],
                )
            } else {
                (self, seq![])
            };
            let s2 = s1.profiled().session_opened(b);
            let s3 = StrategyView { bias: Self::bias_of(s2.prev_poc, s2.open0), ..s2 };
            (s3.told(s3.session_event()), e1.push(s3.session_event()))
        }
    }

    /// The state with the position managed over the bar `b`, and what was told:
    /// first the stop is drawn along, then stop and target are checked, the
    /// stop first.
    pub open spec fn managed(self, b: Bar) -> (StrategyView, Seq<EventView>) {
        let p1 = self.pos->0.run(b);
        let a = earned(p1, self.cfg.ladder, self.cfg.ladder.len());
        let trail = self.cfg.trail_on && !a.same_number(p1.trail_a);
        let p2 = if trail {
            p1.trailed(a)
        } else {
            p1
        };
        let s1 = StrategyView { pos: Some(p2), ..self };
        let ev = EventView::Trail { ts: b.ts as int, a, sl: p2.sl };
        let (s2, e2) = if trail {
            (s1.told(ev), seq![ev])
        } else {
            (s1, seq![])
        };
        if p2.stopped(b, self.cfg.sl_touch) {
            (
                s2.flat("SL"@, p2.sl, b.ts),
                e2.push(EventView::Close(s2.closing("SL"@, p2.sl, b.ts))),
            )
        } else if p2.targeted(b, self.cfg.sl_touch) {
            (
                s2.flat("TP"@, p2.tp, b.ts),
                e2.push(EventView::Close(s2.closing("TP"@, p2.tp, b.ts))),
            )
        } else {
            (s2, e2)
        }
    }

    /// The side on which the bar `b` opens a trade, where it does: the session
    /// is not traded yet, and the bar comes back to the point of control from
    /// the side that the session's direction tells.
    pub open spec fn trigger(self, b: Bar) -> Option<i8> {
        let poc = self.prev_poc->0;
        if self.pos is Some || self.session_traded || self.prev_poc is None || self.bias is None {
            None
        } else if self.cfg.skip_hour0 && (b.ts as int % 86_400) / 3_600 == 0 {
            None
        } else if self.bias == Some(LONG) && b.l.at_most(poc) {
            Some(LONG)
        } else if self.bias == Some(SHORT) && poc.at_most(b.h) {
            Some(SHORT)
        } else {
            None
        }
    }

    /// The position that a trade at `price` opens.
    pub open spec fn entry(self, side: i8, b: Bar, price: Double) -> PosView {
        let atr = match self.atr {
            Some(a) => a,
            None => Double { bits: 0 },
        };
        let slp = atr.quotient(price).clamped(sl_min(), sl_max());
        let below = price.product(one().difference(slp));
        let above = price.product(one().sum(slp));
        let goal = slp.product(self.cfg.rr);
        let sl0 = if side == LONG {
            below
        } else {
            above
        };
        PosView {
            side,
            entry: price,
            sl: sl0,
            sl0,
            tp: if side == LONG {
                price.product(one().sum(goal))
            } else {
                price.product(one().difference(goal))
            },
            slp,
            session: self.active_sd->0,
            entry_ts: b.ts,
            rr: self.cfg.rr,
            runx: price,
            trail_a: Double { bits: 0 },
            bars_held: 0,
        }
    }

    /// The event that tells of the trade.
    pub open spec fn open_event(self, side: i8, b: Bar, price: Double) -> EventView {
        let p = self.entry(side, b, price);
        EventView::Open {
            side,
            session: p.session,
            entry: price,
            sl: p.sl0,
            tp: p.tp,
            slp: p.slp,
            rr: p.rr,
            entry_ts: b.ts as int,
            entry_hour: (b.ts as int % 86_400) / 3_600,
            session_bars_at_entry: self.session_bars.len(),
            last_close: b.c,
        }
    }

    /// The state with a trade opened.
    pub open spec fn entered(self, side: i8, b: Bar, price: Double) -> StrategyView {
        StrategyView {
            session_traded: true,
            pos: Some(self.entry(side, b, price)),
            ..self
        }.told(self.open_event(side, b, price))
    }

    /// The state after the entry check on the bar `b`, and what was told.
    pub open spec fn checked(self, b: Bar) -> (StrategyView, Seq<EventView>) {
        match self.trigger(b) {
            None => (self, seq![]),
            Some(side) => {
                let poc = self.prev_poc->0;
                let s1 = self.entered(side, b, poc);
                let e1 = seq![self.open_event(side, b, poc)];
                if self.cfg.same_bar_exits {
                    let (s2, e2) = s1.managed(b);
                    (s2, e1 + e2)
                } else {
                    (s1, e1)
                }
            },
        }
    }

    /// The state with the position, where there is one, managed over the bar `b`.
    pub open spec fn managed_if_open(self, b: Bar) -> (StrategyView, Seq<EventView>) {
        if self.pos is Some {
            self.managed(b)
        } else {
            (self, seq![])
        }
    }

    /// The state after position and entry were seen to on the bar `b`, and what
    /// was told.
    pub open spec fn traded(self, b: Bar) -> (StrategyView, Seq<EventView>) {
        let (s1, e1) = self.managed_if_open(b);
        let (s2, e2) = s1.checked(b);
        (s2, e1 + e2)
    }

    /// The state after the closed bar `b`, and what was told.
    pub open spec fn step(self, b: Bar) -> (StrategyView, Seq<EventView>) {
        if b.ts <= self.last_bar_ts {
            (self, seq![])
        } else if trading_day(b.ts as int) {
            self.taken(b).session_step(b)
        } else {
            self.taken(b).idle(b)
        }
    }

    /// The state after a bar outside the trading days.
    pub open spec fn idle(self, b: Bar) -> (StrategyView, Seq<EventView>) {
        if self.pos is Some && !self.eos_done {
            let fill = self.last_close_or(b.c);
            (
                StrategyView { eos_done: true, ..self.flat("EOS"@, fill, b.ts) },
                seq![EventView::Close(self.closing("EOS"@, fill, b.ts))],
            )
        } else {
            (self, seq![])
        }
    }

    /// The state after a bar of a trading day.
    #[verifier::opaque]
    pub open spec fn session_step(self, b: Bar) -> (StrategyView, Seq<EventView>) {
        let (s1, e1) = self.in_session(b);
        let s2 = StrategyView { session_bars: s1.session_bars.push(b), eos_done: false, ..s1 };
        let (s3, e3) = s2.traded(b);
        (s3, e1 + e3)
    }

    /// The state after some bars.
    #[verifier::opaque]
    pub open spec fn steps(self, bars: Seq<Bar>) -> (StrategyView, Seq<EventView>)
        decreases bars.len(),
    {
        if bars.len() == 0 {
            (self, seq![])
        } else {
            let (s1, e1) = self.steps(bars.drop_last());
            let (s2, e2) = s1.step(bars.last());
            (s2, e1 + e2)
        }
    }
}

/// The engine.
pub struct Strategy {
    pub cfg: StrategyCfg,
    pub bars: Vec<Bar>,
    pub atr: Option<Double>,
    pub prev_c: Option<Double>,
    pub prev_poc: Option<Double>,
    pub prev_prof: Option<Profile>,
    /// The bars of the session before, for the dashboard.
    pub prev_bars: Vec<Bar>,
    pub active_sd: Option<String>,
    pub active_start: i64,
    pub session_bars: Vec<Bar>,
    pub open0: Double,
    pub bias: Option<i8>,
    pub session_traded: bool,
    pub eos_done: bool,
    pub last_bar_ts: i64,
    pub pos: Option<Pos>,
    pub trades: Vec<Trade>,
    /// The last events, for the dashboard.
    pub recent_events: VecDeque<Json>,
}

impl View for Strategy {
    type V = StrategyView;

    open spec fn view(&self) -> StrategyView {
        StrategyView {
            cfg: self.cfg@,
            bars: self.bars@,
            atr: self.atr,
            prev_c: self.prev_c,
            prev_poc: self.prev_poc,
            prev_prof: match self.prev_prof {
                Some(p) => Some(p@),
                None => None,
            },
            prev_bars: self.prev_bars@,
            active_sd: match self.active_sd {
                Some(s) => Some(s@),
                None => None,
            },
            active_start: self.active_start,
            session_bars: self.session_bars@,
            open0: self.open0,
            bias: self.bias,
            session_traded: self.session_traded,
            eos_done: self.eos_done,
            last_bar_ts: self.last_bar_ts,
            pos: match self.pos {
                Some(p) => Some(p@),
                None => None,
            },
            trades: self.trades@.map_values(|t: Trade| t@),
            recent_events: self.recent_events@.map_values(|j: Json| j@),
        }
    }
}

impl Strategy {
    /// An engine before any bar.
    pub fn new(cfg: StrategyCfg) -> (r: Strategy)
        ensures
            r@ == StrategyView::fresh(cfg@),
            r@.wf(),
    {
        let r = Strategy {
            cfg,
            bars: Vec::new(),
            atr: None,
            prev_c: None,
            prev_poc: None,
            prev_prof: None,
            prev_bars: Vec::new(),
            active_sd: None,
            active_start: 0,
            session_bars: Vec::new(),
            open0: Double { bits: 0 },
            bias: None,
            session_traded: false,
            eos_done: false,
            last_bar_ts: BEFORE_ANY_BAR,
            pos: None,
            trades: Vec::new(),
            recent_events: VecDeque::new(),
        };
        proof {
            assert(r@.trades =~= seq![]);
            assert(r@.recent_events =~= seq![]);
            assert(r@.bars =~= seq![]);
        }
        r
    }

    fn feed_atr(&mut self, b: &Bar)
        ensures
            final(self)@ == (StrategyView {
                atr: Some(next_atr(old(self)@.atr, true_range(old(self)@.prev_c, *b))),
                prev_c: Some(b.c),
                ..old(self)@
            }),
    {
        let own: Double = b.h.minus(b.l);
        let tr: Double = match self.prev_c {
            None => own,
            Some(pc) => own.max(b.h.minus(pc).abs()).max(b.l.minus(pc).abs()),
        };
        let n: Double = Double::from_u64(ATR_N);
        self.atr = Some(
            match self.atr {
                None => tr,
                Some(a) => a.times(n.minus(Double::from_u64(1))).plus(tr).over(n),
            },
        );
        self.prev_c = Some(b.c);
    }

    fn push_event(&mut self, ev: &Event)
        ensures
            final(self)@ == old(self)@.told(ev@),
    {
        let ghost start = self@.recent_events;
        self.recent_events.push_back(ev.to_json());
        let ghost all = self.recent_events@;
        assert(all.map_values(|j: Json| j@) =~= start.push(ev@.json()));
        let ghost mut gone: nat = 0;
        while self.recent_events.len() > EVENTS_KEPT
            invariant
                gone <= all.len(),
                self.recent_events@ == all.skip(gone as int),
                gone > 0 ==> self.recent_events@.len() >= EVENTS_KEPT,
                self@ == (StrategyView {
                    recent_events: self.recent_events@.map_values(|j: Json| j@),
                    ..old(self)@
                }),
            decreases self.recent_events@.len(),
        {
            let _ = self.recent_events.pop_front();
            proof {
                gone = gone + 1;
            }
            assert(self.recent_events@ =~= all.skip(gone as int));
        }
        let ghost held = self.recent_events@;
        if self.recent_events.len() == EVENTS_KEPT {
            let mut i: usize = 0;
            while i < EVENTS_DROPPED
                invariant
                    i <= EVENTS_DROPPED,
                    held.len() == EVENTS_KEPT,
                    self.recent_events@ == held.skip(i as int),
                    self@ == (StrategyView {
                        recent_events: self.recent_events@.map_values(|j: Json| j@),
                        ..old(self)@
                    }),
                decreases EVENTS_DROPPED - i,
            {
                let _ = self.recent_events.pop_front();
                i = i + 1;
                assert(self.recent_events@ =~= held.skip(i as int));
            }
        }
        assert(self@.recent_events =~= kept(start, ev@.json()));
    }

    /// Closes the position at `fill`.
    fn close_pos(&mut self, exit_type: &str, fill: Double, ts: i64) -> (r: Option<Event>)
        ensures
            match r {
                Some(ev) => {
                    &&& old(self)@.pos is Some
                    &&& final(self)@ == old(self)@.flat(exit_type@, fill, ts)
                    &&& ev@ == EventView::Close(old(self)@.closing(exit_type@, fill, ts))
                },
                None => old(self)@.pos is None && final(self)@ == old(self)@,
            },
    {
        let p: Pos = match self.pos.take() {
            Some(p) => p,
            None => {
                return None;
            },
        };
        let pct: Double = gain(p.side, p.entry, fill);
        let r: Double = pct.over(p.slp.times(Double::from_u64(100)));
        let trade = Trade {
            session: p.session.clone(),
            side: p.side,
            entry: p.entry,
            sl: p.sl0,
            tp: p.tp,
            exit: fill,
            exit_type: exit_type.to_string(),
            rr: p.rr,
            slp: p.slp,
            pct,
            r,
            entry_ts: p.entry_ts,
            exit_ts: ts,
            bars_held: p.bars_held,
            trail_a: p.trail_a,
        };
        self.trades.push(trade.clone());
        let ev = Event::Close(trade);
        proof {
            let t = old(self)@.closing(exit_type@, fill, ts);
            assert(ev@ == EventView::Close(t));
            assert(self@.trades =~= old(self)@.trades.push(t));
            assert(self@ == (StrategyView {
                pos: None,
                trades: old(self)@.trades.push(t),
                ..old(self)@
            }));
        }
        self.push_event(&ev);
        Some(ev)
    }

    fn open_session(&mut self, b: &Bar)
        requires
            b.ts >= 0,
        ensures
            final(self)@ == old(self)@.session_opened(*b),
    {
        self.active_sd = Some(session_date_key(b.ts));
        self.active_start = session_start_ts(b.ts);
        self.session_bars.clear();
        self.open0 = b.o;
        self.bias = None;
        self.session_traded = false;
        self.eos_done = false;
        assert(self@.session_bars =~= seq![]);
    }

    /// Keeps the profile of the session that ended.
    fn keep_profile(&mut self)
        ensures
            final(self)@ == old(self)@.profiled(),
    {
        let prof: Option<Profile> = if self.session_bars.len() > 0 {
            compute_poc(self.session_bars.as_slice(), self.active_start)
        } else {
            None
        };
        self.prev_poc = match &prof {
            Some(p) => Some(p.poc),
            None => None,
        };
        self.prev_prof = prof;
        self.prev_bars = copy_bars(&self.session_bars);
    }

    /// Opens a trade at `entry_price`.
    fn enter(&mut self, side: i8, b: &Bar, entry_price: Double) -> (ev: Event)
        requires
            old(self)@.active_sd is Some,
        ensures
            final(self)@ == old(self)@.entered(side, *b, entry_price),
            ev@ == old(self)@.open_event(side, *b, entry_price),
    {
        self.session_traded = true;
        let atr: Double = match self.atr {
            Some(a) => a,
            None => Double { bits: 0 },
        };
        let slp: Double = atr.over(entry_price).clamp(
            Double::from_ratio(5, 10_000),
            Double::from_ratio(5, 1_000),
        );
        let unit: Double = Double::from_u64(1);
        let goal: Double = slp.times(self.cfg.rr);
        let below: Double = entry_price.times(unit.minus(slp));
        let above: Double = entry_price.times(unit.plus(slp));
        let sl0: Double = if side == LONG {
            below
        } else {
            above
        };
        let tp: Double = if side == LONG {
            entry_price.times(unit.plus(goal))
        } else {
            entry_price.times(unit.minus(goal))
        };
        let session: String = match &self.active_sd {
            Some(s) => s.clone(),
            None => String::new(),
        };
        self.pos = Some(
            Pos {
                side,
                entry: entry_price,
                sl: sl0,
                sl0,
                tp,
                slp,
                session: session.clone(),
                entry_ts: b.ts,
                rr: self.cfg.rr,
                runx: entry_price,
                trail_a: Double { bits: 0 },
                bars_held: 0,
            },
        );
        let ev = Event::Open {
            side,
            session,
            entry: entry_price,
            sl: sl0,
            tp,
            slp,
            rr: self.cfg.rr,
            entry_ts: b.ts,
            entry_hour: hour_of(b.ts),
            session_bars_at_entry: self.session_bars.len(),
            last_close: b.c,
        };
        self.push_event(&ev);
        ev
    }

    /// The side on which the bar opens a trade.
    fn maybe_enter(&self, b: &Bar) -> (r: Option<(i8, Double)>)
        ensures
            match r {
                Some((side, poc)) => self@.trigger(*b) == Some(side) && self@.prev_poc == Some(poc),
                None => self@.trigger(*b) is None,
            },
    {
        if self.pos.is_some() || self.session_traded {
            return None;
        }
        let poc: Double = match self.prev_poc {
            Some(p) => p,
            None => {
                return None;
            },
        };
        let bias: i8 = match self.bias {
            Some(s) => s,
            None => {
                return None;
            },
        };
        if self.cfg.skip_hour0 && hour_of(b.ts) == 0 {
            return None;
        }
        if bias == LONG && b.l.le(poc) {
            Some((LONG, poc))
        } else if bias == SHORT && poc.le(b.h) {
            Some((SHORT, poc))
        } else {
            None
        }
    }

    /// Manages the position over the bar: draws the stop along and then checks
    /// stop and target, the stop first.
    pub fn manage(&mut self, b: &Bar) -> (evs: Vec<Event>)
        requires
            old(self)@.pos is Some,
            old(self)@.pos->0.bars_held < i64::MAX,
        ensures
            final(self)@ == old(self)@.managed(*b).0,
            events_view(evs@) == old(self)@.managed(*b).1,
    {
        let mut evs: Vec<Event> = Vec::new();
        let mut p: Pos = match self.pos.take() {
            Some(p) => p,
            None => {
                return evs;
            },
        };
        let ghost p0 = p@;
        p.bars_held = p.bars_held + 1;
        p.runx = if p.side == LONG {
            p.runx.max(b.h)
        } else {
            p.runx.min(b.l)
        };
        let ghost p1 = p@;
        assert(p1 == p0.run(*b));
        let best: Double = best_rung(&p, &self.cfg.ladder);
        let trail: bool = self.cfg.trail_on && !best.equals(p.trail_a);
        if trail {
            let step: Double = best.times(p.slp).times(p.entry);
            let cand: Double = if p.side == LONG {
                p.entry.plus(step)
            } else {
                p.entry.minus(step)
            };
            p.trail_a = best;
            p.sl = if p.side == LONG {
                p.sl.max(cand)
            } else {
                p.sl.min(cand)
            };
            assert(p@ == p1.trailed(best));
        }
        let side: i8 = p.side;
        let sl: Double = p.sl;
        let tp: Double = p.tp;
        let ghost p2 = p@;
        self.pos = Some(p);
        assert(self@ == (StrategyView { pos: Some(p2), ..old(self)@ }));
        if trail {
            let ev = Event::Trail { ts: b.ts, a: best, sl };
            self.push_event(&ev);
            evs.push(ev);
        }
        let near: Double = if self.cfg.sl_touch {
            b.l
        } else {
            b.c
        };
        let sl_hit: bool = if side == LONG {
            near.le(sl)
        } else {
            sl.le(b.h)
        };
        let tp_hit: bool = if side == LONG {
            tp.le(b.h)
        } else {
            near.le(tp)
        };
        if sl_hit {
            if let Some(ev) = self.close_pos("SL", sl, b.ts) {
                evs.push(ev);
            }
        } else if tp_hit {
            if let Some(ev) = self.close_pos("TP", tp, b.ts) {
                evs.push(ev);
            }
        }
        assert(events_view(evs@) =~= old(self)@.managed(*b).1);
        evs
    }

    /// Puts the session of the bar in place.
    fn enter_session(&mut self, b: &Bar) -> (evs: Vec<Event>)
        requires
            b.ts >= 0,
        ensures
            final(self)@ == old(self)@.in_session(*b).0,
            events_view(evs@) == old(self)@.in_session(*b).1,
    {
        let mut evs: Vec<Event> = Vec::new();
        let sd: String = session_date_key(b.ts);
        let (first, current): (bool, bool) = match &self.active_sd {
            None => (true, false),
            Some(s) => (false, same(s.as_str(), sd.as_str())),
        };
        if first {
            self.open_session(b);
        } else if !current {
            let fill: Double = self.last_close(b.o);
            if let Some(ev) = self.close_pos("EOS", fill, b.ts) {
                evs.push(ev);
            }
            self.keep_profile();
            self.open_session(b);
            self.bias = match self.prev_poc {
                Some(p) => Some(
                    if p.le(self.open0) {
                        LONG
                    } else {
                        SHORT
                    },
                ),
                None => None,
            };
            let ev = Event::Session {
                date: sd,
                open: self.open0,
                prev_poc: self.prev_poc,
                bias: self.bias,
                ts: self.active_start,
            };
            self.push_event(&ev);
            evs.push(ev);
        }
        assert(events_view(evs@) =~= old(self)@.in_session(*b).1);
        evs
    }

    fn last_close(&self, other: Double) -> (r: Double)
        ensures
            r == self@.last_close_or(other),
    {
        let n: usize = self.session_bars.len();
        if n > 0 {
            self.session_bars[n - 1].c
        } else {
            other
        }
    }

    /// Takes one closed 15-minute bar and tells what happened. A bar that is not
    /// later than the last one is ignored.
    #[verifier::spinoff_prover]
    pub fn on_bar(&mut self, b: &Bar) -> (evs: Vec<Event>)
        requires
            old(self)@.wf(),
        ensures
            final(self)@ == old(self)@.step(*b).0,
            events_view(evs@) == old(self)@.step(*b).1,
            final(self)@.wf(),
    {
        proof {
            lemma_wf_step(self@, *b);
        }
        if b.ts <= self.last_bar_ts {
            let none: Vec<Event> = Vec::new();
            assert(events_view(none@) =~= seq![]);
            return none;
        }
        self.bars.push(*b);
        self.last_bar_ts = b.ts;
        self.feed_atr(b);
        assert(self@ == old(self)@.taken(*b));
        let wd: u32 = session_weekday(b.ts);
        if wd == 6 || wd <= 3 {
            self.on_session_bar(b)
        } else {
            self.on_idle_bar(b)
        }
    }

    /// Closes what is still open when a bar falls outside the trading days.
    fn on_idle_bar(&mut self, b: &Bar) -> (evs: Vec<Event>)
        ensures
            final(self)@ == old(self)@.idle(*b).0,
            events_view(evs@) == old(self)@.idle(*b).1,
    {
        let mut evs: Vec<Event> = Vec::new();
        if self.pos.is_some() && !self.eos_done {
            let fill: Double = self.last_close(b.c);
            if let Some(ev) = self.close_pos("EOS", fill, b.ts) {
                evs.push(ev);
            }
            self.eos_done = true;
        }
        assert(events_view(evs@) =~= old(self)@.idle(*b).1);
        evs
    }

    /// Takes a bar of a trading day.
    fn on_session_bar(&mut self, b: &Bar) -> (evs: Vec<Event>)
        requires
            b.ts >= 0,
            old(self)@.pos matches Some(p) ==> {
                &&& p.bars_held < i64::MAX
                &&& old(self)@.active_sd == Some(p.session)
                &&& old(self)@.session_traded
            },
        ensures
            final(self)@ == old(self)@.session_step(*b).0,
            events_view(evs@) == old(self)@.session_step(*b).1,
    {
        let mut evs: Vec<Event> = self.enter_session(b);
        let ghost e1v = events_view(evs@);
        self.session_bars.push(*b);
        self.eos_done = false;
        proof {
            reveal(StrategyView::session_step);
            lemma_in_session(old(self)@, *b);
        }
        let mut more: Vec<Event> = self.manage_and_enter(b);
        let ghost e2v = events_view(more@);
        evs.append(&mut more);
        assert(events_view(evs@) =~= e1v + e2v);
        evs
    }

    /// Manages the position over the bar, where there is one, and then checks
    /// the bar for an entry.
    fn manage_and_enter(&mut self, b: &Bar) -> (evs: Vec<Event>)
        requires
            old(self)@.active_sd is Some,
            old(self)@.pos is Some ==> old(self)@.pos->0.bars_held < i64::MAX,
        ensures
            final(self)@ == old(self)@.traded(*b).0,
            events_view(evs@) == old(self)@.traded(*b).1,
    {
        let mut evs: Vec<Event> = if self.pos.is_some() {
            proof {
                lemma_managed(self@, *b);
            }
            self.manage(b)
        } else {
            Vec::new()
        };
        let ghost e1v = events_view(evs@);
        let ghost s1 = self@;
        assert(e1v =~= old(self)@.managed_if_open(*b).1);
        let mut more: Vec<Event> = self.check_entry(b);
        let ghost e2v = events_view(more@);
        evs.append(&mut more);
        assert(events_view(evs@) =~= e1v + e2v);
        evs
    }

    /// Opens a trade where the bar triggers one.
    fn check_entry(&mut self, b: &Bar) -> (evs: Vec<Event>)
        requires
            old(self)@.active_sd is Some,
        ensures
            final(self)@ == old(self)@.checked(*b).0,
            events_view(evs@) == old(self)@.checked(*b).1,
    {
        let mut evs: Vec<Event> = Vec::new();
        if let Some((side, poc)) = self.maybe_enter(b) {
            evs.push(self.enter(side, b, poc));
            let ghost e1v = events_view(evs@);
            assert(e1v =~= seq![old(self)@.open_event(side, *b, poc)]);
            if self.cfg.same_bar_exits {
                let mut more: Vec<Event> = self.manage(b);
                let ghost e2v = events_view(more@);
                evs.append(&mut more);
                assert(events_view(evs@) =~= e1v + e2v);
            }
        } else {
            assert(events_view(evs@) =~= seq![]);
        }
        evs
    }
}

impl StrategyView {
    /// The last bar of the session, or else of the history.
    pub open spec fn latest(self) -> Option<Bar> {
        if self.session_bars.len() > 0 {
            Some(self.session_bars.last())
        } else if self.bars.len() > 0 {
            Some(self.bars.last())
        } else {
            None
        }
    }

    /// The state without a position, closed at the latest close, and what is told
    /// of it.
    pub open spec fn forced(self) -> (StrategyView, Option<EventView>) {
        match (self.pos, self.latest()) {
            (Some(_), Some(b)) => (
                self.flat("MANUAL"@, b.c, b.ts),
                Some(EventView::Close(self.closing("MANUAL"@, b.c, b.ts))),
            ),
            _ => (self, None),
        }
    }

    /// What the open position would gain at the latest close, in percent.
    pub open spec fn unrealized(self) -> Option<Double> {
        match (self.pos, self.latest()) {
            (Some(p), Some(b)) => Some(gain_pct(p.side, p.entry, b.c)),
            _ => None,
        }
    }

    /// What the engine is doing.
    pub open spec fn phase(self) -> Seq<char> {
        if self.pos is Some {
            "in_position"@
        } else if self.session_traded {
            "session_done"@
        } else if self.prev_poc is None {
            "bootstrap"@
        } else {
            "waiting_trigger"@
        }
    }

    /// The position as the dashboard reads it.
    pub open spec fn position_fields(self) -> Seq<(Seq<char>, JsonView)> {
        let p = self.pos->0;
        seq![
            ("side"@, JsonView::Text(side_name(p.side))),
            ("entry"@, JsonView::Number(p.entry)),
            ("sl"@, JsonView::Number(p.sl)),
            ("sl0"@, JsonView::Number(p.sl0)),
            ("tp"@, JsonView::Number(p.tp)),
            ("slp"@, JsonView::Number(p.slp)),
            ("rr"@, JsonView::Number(p.rr)),
            ("runx"@, JsonView::Number(p.runx)),
            ("trail_a"@, JsonView::Number(p.trail_a)),
            ("unreal_pct"@, JsonView::of_number(self.unrealized())),
        ]
    }

    /// The state as the dashboard reads it at the second `now`.
    pub open spec fn state_fields(self, now: i64) -> Seq<(Seq<char>, JsonView)> {
        seq![
            ("time_utc"@, JsonView::Text(calendar::time_text(now as int))),
            ("session"@, JsonView::of_text(self.active_sd)),
            ("prev_poc"@, JsonView::of_number(self.prev_poc)),
            ("bias"@, bias_json(self.bias)),
            ("open0"@, JsonView::Number(self.open0)),
            ("atr"@, JsonView::of_number(self.atr)),
            ("phase"@, JsonView::Text(self.phase())),
            ("session_traded"@, JsonView::Bool(self.session_traded)),
            (
                "position"@,
                if self.pos is Some {
                    JsonView::Object(self.position_fields())
                } else {
                    JsonView::Null
                },
            ),
            (
                "last_bar"@,
                match self.latest() {
                    Some(b) => b.json(),
                    None => JsonView::Null,
                },
            ),
            ("session_bars"@, JsonView::Whole(self.session_bars.len() as int)),
            ("total_bars"@, JsonView::Whole(self.bars.len() as int)),
            (
                "prev_profile"@,
                match self.prev_prof {
                    Some(p) => p.json(),
                    None => JsonView::Null,
                },
            ),
            ("prev_session_bars"@, JsonView::List(profile::bar_items(self.prev_bars))),
            ("active_session_bars"@, JsonView::List(profile::bar_items(self.session_bars))),
            ("recent_events"@, JsonView::List(self.recent_events)),
        ]
    }

    /// The summed gains of trades, in percent.
    pub open spec fn net_of(trades: Seq<TradeView>) -> Double
        decreases trades.len(),
    {
        if trades.len() == 0 {
            Double { bits: 0 }
        } else {
            Self::net_of(trades.drop_last()).sum(trades.last().pct)
        }
    }
}

impl Strategy {
    /// Takes a list of closed bars in turn and tells all that happened.
    pub fn feed_history(&mut self, bars: &[Bar]) -> (out: Vec<Event>)
        requires
            old(self)@.wf(),
        ensures
            final(self)@ == old(self)@.steps(bars@).0,
            events_view(out@) == old(self)@.steps(bars@).1,
            final(self)@.wf(),
    {
        let mut out: Vec<Event> = Vec::new();
        let mut i: usize = 0;
        assert(bars@.take(0) =~= seq![]);
        assert(events_view(out@) =~= seq![]);
        proof {
            lemma_no_bars(self@);
        }
        while i < bars.len()
            invariant
                i <= bars@.len(),
                self@.wf(),
                self@ == old(self)@.steps(bars@.take(i as int)).0,
                events_view(out@) == old(self)@.steps(bars@.take(i as int)).1,
            decreases bars@.len() - i,
        {
            proof {
                assert(bars@.take(i + 1).drop_last() =~= bars@.take(i as int));
                lemma_one_more_bar(old(self)@, bars@.take(i + 1));
            }
            let ghost before = events_view(out@);
            let mut more: Vec<Event> = self.on_bar(&bars[i]);
            let ghost told = events_view(more@);
            out.append(&mut more);
            assert(events_view(out@) =~= before + told);
            i = i + 1;
        }
        assert(bars@.take(i as int) =~= bars@);
        out
    }

    /// The last bar of the session, or else the last bar at all.
    pub fn latest_bar(&self) -> (r: Option<Bar>)
        ensures
            r == self@.latest(),
    {
        let n: usize = self.session_bars.len();
        let m: usize = self.bars.len();
        if n > 0 {
            Some(self.session_bars[n - 1])
        } else if m > 0 {
            Some(self.bars[m - 1])
        } else {
            None
        }
    }

    /// Closes the position, where there is one, at the latest close.
    pub fn force_flat(&mut self) -> (r: Option<Event>)
        ensures
            final(self)@ == old(self)@.forced().0,
            match old(self)@.forced().1 {
                Some(e) => r matches Some(x) && x@ == e,
                None => r is None,
            },
            match (old(self)@.pos, old(self)@.latest()) {
                (Some(_), Some(b)) => {
                    &&& final(self)@ == old(self)@.flat("MANUAL"@, b.c, b.ts)
                    &&& r is Some
                    &&& r->0@ == EventView::Close(old(self)@.closing("MANUAL"@, b.c, b.ts))
                },
                _ => r is None && final(self)@ == old(self)@,
            },
            old(self)@.wf() ==> final(self)@.wf(),
    {
        match self.latest_bar() {
            Some(b) => self.close_pos("MANUAL", b.c, b.ts),
            None => None,
        }
    }

    /// The summed gains of all trades, in percent.
    pub fn net(&self) -> (r: Double)
        ensures
            r == StrategyView::net_of(self@.trades),
    {
        let mut total: Double = Double { bits: 0 };
        let mut i: usize = 0;
        let ghost all = self@.trades;
        while i < self.trades.len()
            invariant
                i <= self.trades@.len(),
                all == self@.trades,
                total == StrategyView::net_of(all.take(i as int)),
            decreases self.trades@.len() - i,
        {
            assert(all.take(i + 1).drop_last() =~= all.take(i as int));
            assert(all[i as int] == self.trades@[i as int]@);
            total = total.plus(self.trades[i].pct);
            i = i + 1;
        }
        assert(all.take(i as int) =~= all);
        total
    }

    /// The date of the active session.
    pub fn active_session(&self) -> (r: Option<&str>)
        ensures
            match r {
                Some(s) => self@.active_sd == Some(s@),
                None => self@.active_sd is None,
            },
    {
        match &self.active_sd {
            Some(s) => Some(s.as_str()),
            None => None,
        }
    }

    /// The average true range.
    pub fn atr(&self) -> (r: Option<Double>)
        ensures
            r == self@.atr,
    {
        self.atr
    }

    fn unrl(&self) -> (r: Option<Double>)
        ensures
            r == self@.unrealized(),
    {
        match (&self.pos, self.latest_bar()) {
            (Some(p), Some(b)) => Some(gain(p.side, p.entry, b.c)),
            _ => None,
        }
    }

    fn position_json(&self) -> (r: Json)
        ensures
            r@ == if self@.pos is Some {
                JsonView::Object(self@.position_fields())
            } else {
                JsonView::Null
            },
    {
        match &self.pos {
            Some(p) => {
                let mut f: Vec<(String, Json)> = Vec::new();
                put(&mut f, "side", text(side_text(p.side)));
                put(&mut f, "entry", Json::Number(p.entry));
                put(&mut f, "sl", Json::Number(p.sl));
                put(&mut f, "sl0", Json::Number(p.sl0));
                put(&mut f, "tp", Json::Number(p.tp));
                put(&mut f, "slp", Json::Number(p.slp));
                put(&mut f, "rr", Json::Number(p.rr));
                put(&mut f, "runx", Json::Number(p.runx));
                put(&mut f, "trail_a", Json::Number(p.trail_a));
                put(&mut f, "unreal_pct", optional_number(self.unrl()));
                assert(crate::json::fields_view(f@) =~= self@.position_fields());
                Json::Object(f)
            },
            None => Json::Null,
        }
    }

    fn events_json(&self) -> (r: Json)
        ensures
            r@ == JsonView::List(self@.recent_events),
    {
        let mut items: Vec<Json> = Vec::new();
        let mut i: usize = 0;
        let ghost all = self@.recent_events;
        while i < self.recent_events.len()
            invariant
                i <= self.recent_events@.len(),
                all == self.recent_events@.map_values(|j: Json| j@),
                crate::json::items_view(items@) == all.take(i as int),
            decreases self.recent_events@.len() - i,
        {
            assert(all.take(i + 1) =~= all.take(i as int).push(all[i as int]));
            put_item(&mut items, self.recent_events[i].copy());
            i = i + 1;
        }
        assert(all.take(i as int) =~= all);
        Json::List(items)
    }

    /// The state as the dashboard reads it now.
    pub fn state(&self) -> (r: Json)
        ensures
            exists|now: i64| r@ == JsonView::Object(self@.state_fields(now)),
    {
        let now: i64 = now_ts();
        let r: Json = Json::Object(self.state_at(now));
        assert(r@ == JsonView::Object(self@.state_fields(now)));
        r
    }

    /// The fields of the state as the dashboard reads it at the second `now`.
    pub fn state_at(&self, now: i64) -> (f: Vec<(String, Json)>)
        ensures
            crate::json::fields_view(f@) == self@.state_fields(now),
    {
        let phase: &str = if self.pos.is_some() {
            "in_position"
        } else if self.session_traded {
            "session_done"
        } else if self.prev_poc.is_none() {
            "bootstrap"
        } else {
            "waiting_trigger"
        };
        let mut f: Vec<(String, Json)> = Vec::new();
        put(&mut f, "time_utc", Json::Text(iso_utc(now)));
        put(
            &mut f,
            "session",
            match &self.active_sd {
                Some(s) => text(s.as_str()),
                None => Json::Null,
            },
        );
        put(&mut f, "prev_poc", optional_number(self.prev_poc));
        put(&mut f, "bias", bias_to_json(self.bias));
        put(&mut f, "open0", Json::Number(self.open0));
        put(&mut f, "atr", optional_number(self.atr));
        put(&mut f, "phase", text(phase));
        put(&mut f, "session_traded", Json::Bool(self.session_traded));
        put(&mut f, "position", self.position_json());
        put(
            &mut f,
            "last_bar",
            match self.latest_bar() {
                Some(b) => b.to_json(),
                None => Json::Null,
            },
        );
        put(&mut f, "session_bars", Json::Uint(self.session_bars.len() as u64));
        put(&mut f, "total_bars", Json::Uint(self.bars.len() as u64));
        put(
            &mut f,
            "prev_profile",
            match &self.prev_prof {
                Some(p) => p.to_json(),
                None => Json::Null,
            },
        );
        put(&mut f, "prev_session_bars", bars_json(self.prev_bars.as_slice()));
        put(&mut f, "active_session_bars", bars_json(self.session_bars.as_slice()));
        put(&mut f, "recent_events", self.events_json());
        f
    }
}

/// The bounds of the stop distance are in order.
pub proof fn lemma_stop_bounds()
    ensures
        sl_min().at_most(sl_max()),
{
    crate::double::lemma_ratio_order(5, 10_000, 5, 1_000);
}

/// No bars change nothing.
pub proof fn lemma_no_bars(s: StrategyView)
    ensures
        s.steps(seq![]).0 == s,
        s.steps(seq![]).1 == Seq::<EventView>::empty(),
{
    reveal(StrategyView::steps);
}

/// The last of some bars is taken by the state that the others lead to.
pub proof fn lemma_one_more_bar(s: StrategyView, bars: Seq<Bar>)
    requires
        bars.len() > 0,
    ensures
        ({
            let (t, e) = s.steps(bars.drop_last());
            &&& s.steps(bars).0 == t.step(bars.last()).0
            &&& s.steps(bars).1 == e + t.step(bars.last()).1
        }),
{
    reveal(StrategyView::steps);
}

/// What managing a position leaves alone.
pub proof fn lemma_managed(s: StrategyView, b: Bar)
    requires
        s.pos is Some,
        s.pos->0.bars_held < i64::MAX,
    ensures
        ({
            let t = s.managed(b).0;
            &&& t.last_bar_ts == s.last_bar_ts
            &&& t.eos_done == s.eos_done
            &&& t.active_sd == s.active_sd
            &&& t.session_traded == s.session_traded
            &&& t.session_bars == s.session_bars
            &&& t.prev_poc == s.prev_poc
            &&& t.bars == s.bars
            &&& t.cfg == s.cfg
            &&& t.pos matches Some(p) ==> {
                &&& p.session == s.pos->0.session
                &&& p.entry_ts == s.pos->0.entry_ts
                &&& p.bars_held == s.pos->0.bars_held + 1
            }
        }),
{
}

/// What putting a session in place leaves behind.
pub proof fn lemma_in_session(s: StrategyView, b: Bar)
    requires
        s.pos matches Some(p) ==> s.active_sd == Some(p.session) && s.session_traded,
    ensures
        ({
            let t = s.in_session(b).0;
            &&& t.last_bar_ts == s.last_bar_ts
            &&& t.active_sd == Some(date_key(b.ts as int))
            &&& t.bars == s.bars
            &&& t.cfg == s.cfg
            &&& t.pos matches Some(p) ==> {
                &&& s.pos == Some(p)
                &&& t.active_sd == Some(p.session)
                &&& t.session_traded
            }
        }),
{
}

/// Every state that bars lead to is well formed: a position is one of the
/// active session, which is then a traded one.
pub proof fn lemma_wf_step(s: StrategyView, b: Bar)
    requires
        s.wf(),
    ensures
        s.step(b).0.wf(),
{
    reveal(StrategyView::session_step);
    if b.ts > s.last_bar_ts && trading_day(b.ts as int) {
        let s0 = s.taken(b);
        lemma_in_session(s0, b);
        let s1 = s0.in_session(b).0;
        let s2 = StrategyView { session_bars: s1.session_bars.push(b), eos_done: false, ..s1 };
        let s3 = s2.managed_if_open(b).0;
        if s2.pos is Some {
            lemma_managed(s2, b);
        }
        assert(s3.wf());
        if s3.trigger(b) is Some && s3.cfg.same_bar_exits {
            lemma_managed(s3.entered(s3.trigger(b)->0, b, s3.prev_poc->0), b);
        }
    }
}

fn gain(side: i8, entry: Double, price: Double) -> (r: Double)
    ensures
        r == gain_pct(side, entry, price),
{
    let unit: Double = Double::from_u64(1);
    let share: Double = price.over(entry);
    if side == LONG {
        share.minus(unit).times(Double::from_u64(100))
    } else {
        unit.minus(share).times(Double::from_u64(100))
    }
}

/// What the ladder has earned the position.
fn best_rung(p: &Pos, ladder: &Vec<(Double, Double)>) -> (r: Double)
    ensures
        r == earned(p@, ladder@, ladder@.len()),
{
    let mut best: Double = p.trail_a;
    let mut i: usize = 0;
    while i < ladder.len()
        invariant
            i <= ladder@.len(),
            best == earned(p@, ladder@, i as nat),
        decreases ladder@.len() - i,
    {
        let (prog, a): (Double, Double) = ladder[i];
        let price: Double = p.entry.plus(p.tp.minus(p.entry).times(prog));
        let hit: bool = if p.side == LONG {
            price.le(p.runx)
        } else {
            p.runx.le(price)
        };
        if hit && best.lt(a) {
            best = a;
        }
        i = i + 1;
    }
    best
}

/// The same bars once more.
pub fn copy_bars(bars: &Vec<Bar>) -> (r: Vec<Bar>)
    ensures
        r@ == bars@,
{
    let mut out: Vec<Bar> = Vec::new();
    let mut i: usize = 0;
    while i < bars.len()
        invariant
            i <= bars@.len(),
            out@ == bars@.take(i as int),
        decreases bars@.len() - i,
    {
        out.push(bars[i]);
        i = i + 1;
        assert(bars@.take(i as int) =~= bars@.take(i - 1).push(bars@[i - 1]));
    }
    assert(bars@.take(i as int) =~= bars@);
    out
}

} // verus!
