//! What holds of the engine whatever bars it is fed.

use crate::calendar;
use crate::double::Double;
use crate::engine;
use crate::engine::{CfgView, EventView, PosView, StrategyView, TradeView, EVENTS_KEPT, LONG};
use crate::ledger::LedgerView;
use crate::profile::Bar;
use vstd::prelude::*;

verus! {

/// The day of the session that was opened last.
pub open spec fn active_day(s: StrategyView) -> int {
    calendar::session_day(s.active_start as int)
}

/// The day of the session in which a trade was entered.
pub open spec fn entry_day(t: TradeView) -> int {
    calendar::session_day(t.entry_ts as int)
}

/// What holds of the trades of every state that bars lead to from the start:
/// they follow each other in later and later sessions, none of them later than the active
/// one, and only where the active session is traded one of them is its own.
pub open spec fn orderly(s: StrategyView) -> bool {
    &&& s.wf()
    &&& s.active_sd is Some ==> {
        &&& s.active_sd == Some(calendar::date_text(calendar::civil(active_day(s))))
        &&& s.last_bar_ts >= 0
        &&& -1 <= active_day(s) <= calendar::session_day(s.last_bar_ts as int)
    }
    &&& s.trades.len() > 0 ==> s.active_sd is Some
    &&& forall|i: int|
        #![trigger s.trades[i]]
        0 <= i < s.trades.len() ==> {
            &&& s.trades[i].entry_ts >= 0
            &&& s.trades[i].session == engine::date_key(s.trades[i].entry_ts as int)
            &&& entry_day(s.trades[i]) <= active_day(s)
            &&& (!s.session_traded || s.pos is Some) ==> entry_day(s.trades[i]) < active_day(s)
        }
    &&& forall|i: int, j: int|
        #![trigger s.trades[i], s.trades[j]]
        0 <= i < j < s.trades.len() ==> entry_day(s.trades[i]) < entry_day(s.trades[j])
    &&& s.pos matches Some(p) ==> {
        &&& p.entry_ts >= 0
        &&& p.session == engine::date_key(p.entry_ts as int)
        &&& calendar::session_day(p.entry_ts as int) == active_day(s)
    }
}

proof fn lemma_flat(s: StrategyView, exit_type: Seq<char>, fill: Double, ts: i64)
    requires
        orderly(s),
        s.pos is Some,
    ensures
        orderly(s.flat(exit_type, fill, ts)),
        s.flat(exit_type, fill, ts).pos is None,
{
    let t = s.flat(exit_type, fill, ts);
    assert(t.trades.drop_last() =~= s.trades);
    assert forall|i: int, j: int|
        #![trigger t.trades[i], t.trades[j]]
        0 <= i < j < t.trades.len() implies entry_day(t.trades[i]) < entry_day(t.trades[j]) by {
        assert(t.trades[i] == s.trades[i]);
        if j < s.trades.len() {
            assert(t.trades[j] == s.trades[j]);
        }
    }
    assert forall|i: int| #![trigger t.trades[i]] 0 <= i < t.trades.len() implies ({
        &&& t.trades[i].entry_ts >= 0
        &&& t.trades[i].session == engine::date_key(t.trades[i].entry_ts as int)
        &&& entry_day(t.trades[i]) <= active_day(t)
    }) by {
        if i < s.trades.len() {
            assert(t.trades[i] == s.trades[i]);
        }
    }
}

proof fn lemma_opened(s: StrategyView, b: Bar)
    requires
        orderly(s),
        s.pos is None,
        b.ts >= 0,
        b.ts == s.last_bar_ts,
        s.active_sd is Some ==> active_day(s) < calendar::session_day(b.ts as int),
    ensures
        orderly(s.session_opened(b)),
        active_day(s.session_opened(b)) == calendar::session_day(b.ts as int),
{
    calendar::lemma_session_holds(b.ts as int);
}

proof fn lemma_orderly_in_session(s: StrategyView, b: Bar)
    requires
        orderly(s),
        b.ts >= 0,
        b.ts == s.last_bar_ts,
    ensures
        ({
            let t = s.in_session(b).0;
            &&& orderly(t)
            &&& t.active_sd is Some
            &&& active_day(t) == calendar::session_day(b.ts as int)
            &&& t.last_bar_ts == s.last_bar_ts
        }),
{
    let day = calendar::session_day(b.ts as int);
    if s.active_sd is None {
        lemma_opened(s, b);
    } else if s.active_sd == Some(engine::date_key(b.ts as int)) {
        calendar::lemma_date_text(active_day(s), day);
    } else {
        let fill = s.last_close_or(b.o);
        let s1 = if s.pos is Some {
            lemma_flat(s, "EOS"@, fill, b.ts);
            s.flat("EOS"@, fill, b.ts)
        } else {
            s
        };
        assert(orderly(s1));
        let s2 = s1.profiled();
        assert(orderly(s2));
        lemma_opened(s2, b);
    }
}

proof fn lemma_orderly_managed(s: StrategyView, b: Bar)
    requires
        orderly(s),
        s.pos is Some,
        s.pos->0.bars_held <= s.last_bar_ts - s.pos->0.entry_ts,
    ensures
        ({
            let t = s.managed(b).0;
            &&& orderly(t)
            &&& t.active_sd == s.active_sd
            &&& t.active_start == s.active_start
            &&& t.session_traded == s.session_traded
            &&& t.last_bar_ts == s.last_bar_ts
        }),
{
    let p1 = s.pos->0.run(b);
    let a = engine::earned(p1, s.cfg.ladder, s.cfg.ladder.len());
    let trail = s.cfg.trail_on && !a.same_number(p1.trail_a);
    let p2 = if trail {
        p1.trailed(a)
    } else {
        p1
    };
    let s1 = StrategyView { pos: Some(p2), ..s };
    let ev = EventView::Trail { ts: b.ts as int, a, sl: p2.sl };
    let s2 = if trail {
        s1.told(ev)
    } else {
        s1
    };
    assert(orderly(s2));
    if p2.stopped(b, s.cfg.sl_touch) {
        lemma_flat(s2, "SL"@, p2.sl, b.ts);
    } else if p2.targeted(b, s.cfg.sl_touch) {
        lemma_flat(s2, "TP"@, p2.tp, b.ts);
    }
}

/// Every bar leads from such a state to another.
proof fn lemma_orderly_step(s: StrategyView, b: Bar)
    requires
        orderly(s),
    ensures
        orderly(s.step(b).0),
{
    reveal(StrategyView::session_step);
    if b.ts > s.last_bar_ts {
        let s0 = s.taken(b);
        if s.last_bar_ts >= 0 {
            calendar::lemma_sessions_in_order(s.last_bar_ts as int, b.ts as int);
        }
        assert(orderly(s0));
        if trading_bar(b) {
            lemma_orderly_in_session(s0, b);
            let s1 = s0.in_session(b).0;
            engine::lemma_in_session(s0, b);
            let s2 = StrategyView {
                session_bars: s1.session_bars.push(b),
                eos_done: false,
                ..s1
            };
            assert(orderly(s2));
            if s2.pos is Some {
                lemma_orderly_managed(s2, b);
            }
            let s3 = s2.managed_if_open(b).0;
            assert(orderly(s3));
            if s3.trigger(b) is Some {
                let side = s3.trigger(b)->0;
                let s4 = s3.entered(side, b, s3.prev_poc->0);
                assert(orderly(s4));
                if s3.cfg.same_bar_exits {
                    lemma_orderly_managed(s4, b);
                }
            }
        } else if s0.pos is Some && !s0.eos_done {
            lemma_flat(s0, "EOS"@, s0.last_close_or(b.c), b.ts);
        }
    }
}

/// Whether the bar belongs to a session that is traded.
pub open spec fn trading_bar(b: Bar) -> bool {
    engine::trading_day(b.ts as int)
}

/// What holds of the active session of every state that bars lead to from the
/// start: it has bars, all of them are its own, and its key, its start and its
/// opening price are those of the first.
pub open spec fn session_held(s: StrategyView) -> bool {
    &&& s.active_sd is Some <==> s.session_bars.len() > 0
    &&& s.session_bars.len() > 0 ==> {
        let first = s.session_bars[0];
        &&& s.active_start == calendar::session_day(first.ts as int) * 86_400 + 22 * 3_600
        &&& s.open0 == first.o
    }
    &&& forall|i: int|
        0 <= i < s.session_bars.len() ==> s.active_sd == Some(
            engine::date_key((#[trigger] s.session_bars[i]).ts as int),
        )
    &&& s.pos is Some ==> s.session_bars.len() > 0
}

/// What holds of every state that bars lead to from the start.
pub open spec fn reachable(s: StrategyView) -> bool {
    orderly(s) && session_held(s)
}

/// A bar leaves the settings alone.
pub proof fn lemma_same_cfg(s: StrategyView, b: Bar)
    ensures
        s.step(b).0.cfg == s.cfg,
{
    reveal(StrategyView::session_step);
    let s0 = s.taken(b);
    let s1 = s0.in_session(b).0;
    let s2 = StrategyView { session_bars: s1.session_bars.push(b), eos_done: false, ..s1 };
    lemma_traded_keeps_session(s2, b);
}

/// What seeing to position and entry leaves alone.
proof fn lemma_traded_keeps_session(s: StrategyView, b: Bar)
    ensures
        ({
            let t = s.traded(b).0;
            &&& t.active_sd == s.active_sd
            &&& t.active_start == s.active_start
            &&& t.session_bars == s.session_bars
            &&& t.open0 == s.open0
            &&& t.cfg == s.cfg
        }),
{
}

proof fn lemma_held_step(s: StrategyView, b: Bar)
    requires
        reachable(s),
    ensures
        session_held(s.step(b).0),
{
    reveal(StrategyView::session_step);
    if b.ts > s.last_bar_ts {
        let s0 = s.taken(b);
        if trading_bar(b) {
            let s1 = s0.in_session(b).0;
            let s2 = StrategyView { session_bars: s1.session_bars.push(b), eos_done: false, ..s1 };
            lemma_traded_keeps_session(s2, b);
            let key = engine::date_key(b.ts as int);
            calendar::lemma_session_holds(b.ts as int);
            assert(s1.active_sd == Some(key));
            if s0.active_sd == Some(key) {
                assert(s1 == s0);
                assert(s2.session_bars[0] == s0.session_bars[0]);
            } else {
                assert(s1.session_bars.len() == 0);
                assert(s2.session_bars[0] == b);
            }
            assert forall|i: int| 0 <= i < s2.session_bars.len() implies s2.active_sd == Some(
                engine::date_key((#[trigger] s2.session_bars[i]).ts as int),
            ) by {
                if i < s1.session_bars.len() {
                    assert(s2.session_bars[i] == s0.session_bars[i]);
                }
            }
        }
    }
}

/// Every bar leads from such a state to another.
pub proof fn lemma_reachable_step(s: StrategyView, b: Bar)
    requires
        reachable(s),
    ensures
        reachable(s.step(b).0),
{
    lemma_orderly_step(s, b);
    lemma_held_step(s, b);
}

/// Every state that bars lead to from the start is such a state.
pub proof fn lemma_reachable(cfg: CfgView, bars: Seq<Bar>)
    ensures
        reachable(StrategyView::fresh(cfg).steps(bars).0),
    decreases bars.len(),
{
    if bars.len() == 0 {
        assert(bars =~= seq![]);
        engine::lemma_no_bars(StrategyView::fresh(cfg));
    } else {
        engine::lemma_one_more_bar(StrategyView::fresh(cfg), bars);
        lemma_reachable(cfg, bars.drop_last());
        lemma_reachable_step(StrategyView::fresh(cfg).steps(bars.drop_last()).0, bars.last());
    }
}

/// One trade per session: whatever bars the engine was fed, no two of its
/// trades are of one session, and an open position is of none of theirs.
pub proof fn law_one_trade_per_session(cfg: CfgView, bars: Seq<Bar>)
    ensures
        ({
            let s = StrategyView::fresh(cfg).steps(bars).0;
            &&& forall|i: int, j: int|
                #![trigger s.trades[i], s.trades[j]]
                0 <= i < j < s.trades.len() ==> s.trades[i].session != s.trades[j].session
            &&& s.pos matches Some(p) ==> forall|i: int|
                0 <= i < s.trades.len() ==> (#[trigger] s.trades[i]).session != p.session
        }),
{
    lemma_reachable(cfg, bars);
    let s = StrategyView::fresh(cfg).steps(bars).0;
    assert forall|i: int, j: int|
        #![trigger s.trades[i], s.trades[j]]
        0 <= i < j < s.trades.len() implies s.trades[i].session != s.trades[j].session by {
        let a = s.trades[i];
        let b = s.trades[j];
        if a.session == b.session {
            calendar::lemma_date_text(entry_day(a), entry_day(b));
        }
    }
    if let Some(p) = s.pos {
        assert forall|i: int| 0 <= i < s.trades.len() implies (#[trigger] s.trades[i]).session
            != p.session by {
            if s.trades[i].session == p.session {
                calendar::lemma_date_text(
                    entry_day(s.trades[i]),
                    calendar::session_day(p.entry_ts as int),
                );
            }
        }
    }
}

/// Flat by session end: after a new bar an open position is of the session of
/// that bar. So none is carried past the end of its session, and none is open
/// after a bar outside the trading days.
pub proof fn law_flat_by_session_end(s: StrategyView, b: Bar)
    requires
        s.wf(),
        b.ts > s.last_bar_ts,
    ensures
        s.step(b).0.pos matches Some(p) ==> {
            &&& trading_bar(b)
            &&& p.session == engine::date_key(b.ts as int)
        },
{
    let s0 = s.taken(b);
    reveal(StrategyView::session_step);
    if trading_bar(b) {
        engine::lemma_in_session(s0, b);
        let s1 = s0.in_session(b).0;
        let s2 = StrategyView { session_bars: s1.session_bars.push(b), eos_done: false, ..s1 };
        if s2.pos is Some {
            engine::lemma_managed(s2, b);
        }
        let s3 = s2.managed_if_open(b).0;
        if s3.trigger(b) is Some && s3.cfg.same_bar_exits {
            engine::lemma_managed(s3.entered(s3.trigger(b)->0, b, s3.prev_poc->0), b);
        }
    }
}

/// A position that its session's end finds open is closed at the last close of
/// that session: by the first bar of another session, or by one outside the
/// trading days.
pub proof fn law_session_end_fills_at_last_close(cfg: CfgView, bars: Seq<Bar>, b: Bar)
    requires
        ({
            let s = StrategyView::fresh(cfg).steps(bars).0;
            &&& s.pos is Some
            &&& b.ts > s.last_bar_ts
            &&& !trading_bar(b) || s.active_sd != Some(engine::date_key(b.ts as int))
        }),
    ensures
        ({
            let s = StrategyView::fresh(cfg).steps(bars).0;
            let t = s.pos->0.closed("EOS"@, s.session_bars.last().c, b.ts);
            &&& s.session_bars.len() > 0
            &&& s.step(b).1.len() > 0
            &&& s.step(b).1[0] == EventView::Close(t)
        }),
{
    lemma_reachable(cfg, bars);
    reveal(StrategyView::session_step);
    let s = StrategyView::fresh(cfg).steps(bars).0;
    let s0 = s.taken(b);
    if trading_bar(b) {
        let e1 = s0.in_session(b).1;
        assert(e1[0] is Close);
    }
}

/// A bar that is not later than the last one changes nothing and tells nothing.
pub proof fn law_stale_bar_ignored(s: StrategyView, b: Bar)
    requires
        b.ts <= s.last_bar_ts,
    ensures
        s.step(b) == (s, Seq::<EventView>::empty()),
{
}

/// The last bar has the same effect on the same state.
#[verifier::spinoff_prover]
proof fn lemma_last_step(s: StrategyView, x: Seq<Bar>, t: StrategyView, y: Seq<Bar>) -> (told: Seq<
    EventView,
>)
    requires
        x.len() > 0,
        y.len() > 0,
        x.last() == y.last(),
        s.steps(x.drop_last()).0 == t.steps(y.drop_last()).0,
    ensures
        s.steps(x).0 == t.steps(y).0,
        s.steps(x).1 == s.steps(x.drop_last()).1 + told,
        t.steps(y).1 == t.steps(y.drop_last()).1 + told,
{
    engine::lemma_one_more_bar(s, x);
    engine::lemma_one_more_bar(t, y);
    s.steps(x.drop_last()).0.step(x.last()).1
}

/// The state is a function of the bars alone: bars fed in two parts lead to
/// the same state, and tell the same, as all of them at once.
#[verifier::spinoff_prover]
pub proof fn law_history_in_parts(s: StrategyView, first: Seq<Bar>, rest: Seq<Bar>)
    ensures
        s.steps(first + rest).0 == s.steps(first).0.steps(rest).0,
        s.steps(first + rest).1 == s.steps(first).1 + s.steps(first).0.steps(rest).1,
    decreases rest.len(),
{
    let all = first + rest;
    let t = s.steps(first).0;
    let e1 = s.steps(first).1;
    if rest.len() == 0 {
        assert(all =~= first);
        assert(rest =~= seq![]);
        engine::lemma_no_bars(t);
        assert(e1 + t.steps(rest).1 =~= e1);
    } else {
        law_history_in_parts(s, first, rest.drop_last());
        assert(all.drop_last() =~= first + rest.drop_last());
        let e3 = lemma_last_step(s, all, t, rest);
        let e2 = t.steps(rest.drop_last()).1;
        assert((e1 + e2) + e3 =~= e1 + (e2 + e3));
    }
}

/// The stop is only ever drawn towards the trade's favour: over every bar that
/// leaves the position open it goes up or stays for a long one, and goes down
/// or stays for a short one.
pub proof fn law_stop_never_loosens(s: StrategyView, b: Bar)
    requires
        s.pos is Some,
        !s.pos->0.sl.nan(),
    ensures
        s.managed(b).0.pos matches Some(p) ==> {
            &&& p.side == s.pos->0.side
            &&& p.side == LONG ==> s.pos->0.sl.at_most(p.sl)
            &&& p.side != LONG ==> p.sl.at_most(s.pos->0.sl)
        },
{
}

/// The position as the exits of the bar `b` see it: run on, and drawn along
/// where the ladder says so.
pub open spec fn at_exits(s: StrategyView, b: Bar) -> PosView {
    let p = s.pos->0.run(b);
    let a = engine::earned(p, s.cfg.ladder, s.cfg.ladder.len());
    if s.cfg.trail_on && !a.same_number(p.trail_a) {
        p.trailed(a)
    } else {
        p
    }
}

/// The stop is checked first: a bar that takes the stop closes the trade there,
/// whether or not it takes the target too; one that takes only the target
/// closes it at the target; any other leaves it open.
pub proof fn law_stop_before_target(s: StrategyView, b: Bar)
    requires
        s.pos is Some,
    ensures
        ({
            let p = at_exits(s, b);
            let t = s.managed(b).0;
            &&& p.stopped(b, s.cfg.sl_touch) ==> {
                &&& t.pos is None
                &&& t.trades == s.trades.push(p.closed("SL"@, p.sl, b.ts))
            }
            &&& !p.stopped(b, s.cfg.sl_touch) && p.targeted(b, s.cfg.sl_touch) ==> {
                &&& t.pos is None
                &&& t.trades == s.trades.push(p.closed("TP"@, p.tp, b.ts))
            }
            &&& !p.stopped(b, s.cfg.sl_touch) && !p.targeted(b, s.cfg.sl_touch) ==> {
                &&& t.pos == Some(p)
                &&& t.trades == s.trades
            }
        }),
{
}

/// With fills on touch both sides are treated alike: the stop is taken where
/// the bar's range reaches it from the good side, and so is the target.
pub proof fn law_touch_is_symmetric(p: PosView, b: Bar)
    ensures
        p.side == LONG ==> p.stopped(b, true) == b.l.at_most(p.sl),
        p.side == LONG ==> p.targeted(b, true) == p.tp.at_most(b.h),
        p.side != LONG ==> p.stopped(b, true) == p.sl.at_most(b.h),
        p.side != LONG ==> p.targeted(b, true) == b.l.at_most(p.tp),
{
}

/// With fills on the close the two sides differ: a long trade is stopped by the
/// close and reaches its target by a touch, a short trade is stopped by a touch
/// and reaches its target by the close.
pub proof fn law_close_mode_differs_by_side(p: PosView, b: Bar)
    ensures
        p.side == LONG ==> p.stopped(b, false) == b.c.at_most(p.sl),
        p.side == LONG ==> p.targeted(b, false) == p.tp.at_most(b.h),
        p.side != LONG ==> p.stopped(b, false) == p.sl.at_most(b.h),
        p.side != LONG ==> p.targeted(b, false) == b.c.at_most(p.tp),
{
}

/// The stop distance of every trade lies between the two bounds, unless it is
/// no number at all.
pub proof fn law_stop_distance_bounded(s: StrategyView, side: i8, b: Bar, price: Double)
    ensures
        ({
            let slp = s.entry(side, b, price).slp;
            slp.nan() || (engine::sl_min().at_most(slp) && slp.at_most(engine::sl_max()))
        }),
{
    engine::lemma_stop_bounds();
}

/// No trade is entered in the first hour of the day where that is switched off.
pub proof fn law_hour_skipped(s: StrategyView, b: Bar)
    requires
        s.cfg.skip_hour0,
        (b.ts as int % 86_400) / 3_600 == 0,
    ensures
        s.trigger(b) is None,
{
}

/// The trades that a list of events tells of.
pub open spec fn closes(evs: Seq<EventView>) -> Seq<TradeView>
    decreases evs.len(),
{
    if evs.len() == 0 {
        seq![]
    } else {
        match evs.last() {
            EventView::Close(t) => closes(evs.drop_last()).push(t),
            _ => closes(evs.drop_last()),
        }
    }
}

pub proof fn lemma_closes_concat(a: Seq<EventView>, b: Seq<EventView>)
    ensures
        closes(a + b) == closes(a) + closes(b),
    decreases b.len(),
{
    if b.len() == 0 {
        assert(a + b =~= a);
    } else {
        assert((a + b).drop_last() =~= a + b.drop_last());
        lemma_closes_concat(a, b.drop_last());
    }
}

proof fn lemma_closes_one(e: EventView)
    ensures
        closes(seq![e]) == match e {
            EventView::Close(t) => seq![t],
            _ => seq![],
        },
{
    assert(seq![e].drop_last() =~= seq![]);
    assert(closes(seq![e].drop_last()) =~= seq![]);
}

proof fn lemma_closes_managed(s: StrategyView, b: Bar)
    requires
        s.pos is Some,
    ensures
        s.managed(b).0.trades == s.trades + closes(s.managed(b).1),
{
    let p = at_exits(s, b);
    let p1 = s.pos->0.run(b);
    let a = engine::earned(p1, s.cfg.ladder, s.cfg.ladder.len());
    let trail = s.cfg.trail_on && !a.same_number(p1.trail_a);
    let ev = EventView::Trail { ts: b.ts as int, a, sl: p.sl };
    let head = if trail {
        seq![ev]
    } else {
        seq![]
    };
    lemma_closes_one(ev);
    assert(closes(Seq::<EventView>::empty()) =~= seq![]);
    assert(closes(head) =~= seq![]);
    let evs = s.managed(b).1;
    if p.stopped(b, s.cfg.sl_touch) || p.targeted(b, s.cfg.sl_touch) {
        assert(evs.drop_last() =~= head);
    } else {
        assert(evs =~= head);
    }
}

proof fn lemma_closes_in_session(s: StrategyView, b: Bar)
    ensures
        s.in_session(b).0.trades == s.trades + closes(s.in_session(b).1),
{
    let e = s.in_session(b).1;
    assert(closes(Seq::<EventView>::empty()) =~= seq![]);
    if s.active_sd is Some && s.active_sd != Some(engine::date_key(b.ts as int)) {
        assert(e.last() is Session);
        if s.pos is Some {
            lemma_closes_one(e[0]);
            assert(e.drop_last() =~= seq![e[0]]);
        } else {
            assert(e.drop_last() =~= seq![]);
        }
    }
}

proof fn lemma_closes_checked(s: StrategyView, b: Bar)
    ensures
        s.checked(b).0.trades == s.trades + closes(s.checked(b).1),
{
    assert(closes(Seq::<EventView>::empty()) =~= seq![]);
    if let Some(side) = s.trigger(b) {
        let opened = s.entered(side, b, s.prev_poc->0);
        let ev = s.open_event(side, b, s.prev_poc->0);
        lemma_closes_one(ev);
        if s.cfg.same_bar_exits {
            lemma_closes_managed(opened, b);
            lemma_closes_concat(seq![ev], opened.managed(b).1);
        }
    }
}

proof fn lemma_closes_traded(s: StrategyView, b: Bar)
    ensures
        s.traded(b).0.trades == s.trades + closes(s.traded(b).1),
{
    assert(closes(Seq::<EventView>::empty()) =~= seq![]);
    if s.pos is Some {
        lemma_closes_managed(s, b);
    }
    let (s1, e1) = s.managed_if_open(b);
    lemma_closes_checked(s1, b);
    lemma_closes_concat(e1, s1.checked(b).1);
    assert(s1.trades == s.trades + closes(e1));
}

proof fn lemma_closes_session_step(s: StrategyView, b: Bar)
    ensures
        s.session_step(b).0.trades == s.trades + closes(s.session_step(b).1),
{
    reveal(StrategyView::session_step);
    let (s1, e1) = s.in_session(b);
    lemma_closes_in_session(s, b);
    let s2 = StrategyView { session_bars: s1.session_bars.push(b), eos_done: false, ..s1 };
    lemma_closes_traded(s2, b);
    lemma_closes_concat(e1, s2.traded(b).1);
}

/// Every trade is told, once and in order: the trades after a bar are those
/// before it and those that its close events carry.
pub proof fn law_trades_are_told(s: StrategyView, b: Bar)
    ensures
        s.step(b).0.trades == s.trades + closes(s.step(b).1),
{
    assert(closes(Seq::<EventView>::empty()) =~= seq![]);
    let s0 = s.taken(b);
    lemma_closes_session_step(s0, b);
    if s0.pos is Some && !s0.eos_done {
        lemma_closes_one(s0.idle(b).1[0]);
        assert(s0.idle(b).1 =~= seq![s0.idle(b).1[0]]);
    }
}

/// The kept events stay below their bound.
pub proof fn law_events_bounded(
    events: Seq<crate::json::JsonView>,
    ev: crate::json::JsonView,
)
    requires
        events.len() < EVENTS_KEPT,
    ensures
        engine::kept(events, ev).len() < EVENTS_KEPT,
        engine::kept(events, ev).last() == ev,
{
}

// ---------------------------------------------------------------------------
// Books
// ---------------------------------------------------------------------------

/// The ledger after an event of the day: a position is sized when it is opened,
/// and a trade is booked with the size that was noted then.
pub open spec fn booked_live(l: LedgerView, ev: EventView) -> LedgerView {
    match ev {
        EventView::Open { entry, slp, .. } => l.opened(entry, slp),
        EventView::Close(t) => l.closed(t, t.exit_ts),
        _ => l,
    }
}

/// The ledger after an event of the past: a trade is sized anew when it is
/// booked.
pub open spec fn booked_warm(l: LedgerView, ev: EventView) -> LedgerView {
    match ev {
        EventView::Open { entry, slp, .. } => l.opened(entry, slp),
        EventView::Close(t) => l.replayed(t),
        _ => l,
    }
}

/// The ledger after some events of the day.
pub open spec fn live_books(l: LedgerView, evs: Seq<EventView>) -> LedgerView
    decreases evs.len(),
{
    if evs.len() == 0 {
        l
    } else {
        booked_live(live_books(l, evs.drop_last()), evs.last())
    }
}

/// The ledger after some events of the past.
pub open spec fn warm_books(l: LedgerView, evs: Seq<EventView>) -> LedgerView
    decreases evs.len(),
{
    if evs.len() == 0 {
        l
    } else {
        booked_warm(warm_books(l, evs.drop_last()), evs.last())
    }
}

/// Whether the ledger knows the size of the open position.
pub open spec fn sized_for(s: StrategyView, l: LedgerView) -> bool {
    s.pos matches Some(p) ==> l.open_sizing == Some(l.sized(p.entry, p.slp))
}

/// Whether events book the same, live and warm, and leave the position of the
/// state `t` sized.
pub open spec fn books_alike(l: LedgerView, evs: Seq<EventView>, t: StrategyView) -> bool {
    &&& warm_books(l, evs) == live_books(l, evs)
    &&& sized_for(t, live_books(l, evs))
}

proof fn lemma_books_concat(l: LedgerView, a: Seq<EventView>, b: Seq<EventView>)
    ensures
        live_books(l, a + b) == live_books(live_books(l, a), b),
        warm_books(l, a + b) == warm_books(warm_books(l, a), b),
    decreases b.len(),
{
    if b.len() == 0 {
        assert(a + b =~= a);
    } else {
        assert((a + b).drop_last() =~= a + b.drop_last());
        lemma_books_concat(l, a, b.drop_last());
    }
}

proof fn lemma_books_one(l: LedgerView, ev: EventView)
    ensures
        live_books(l, seq![ev]) == booked_live(l, ev),
        warm_books(l, seq![ev]) == booked_warm(l, ev),
{
    assert(seq![ev].drop_last() =~= seq![]);
    assert(live_books(l, seq![ev].drop_last()) == l);
    assert(warm_books(l, seq![ev].drop_last()) == l);
}

/// A trade whose size is known is booked the same, live and warm.
proof fn lemma_books_close(s: StrategyView, l: LedgerView, t: TradeView)
    requires
        s.pos is Some,
        sized_for(s, l),
        t.entry == s.pos->0.entry,
        t.slp == s.pos->0.slp,
    ensures
        booked_warm(l, EventView::Close(t)) == booked_live(l, EventView::Close(t)),
{
    assert(l.opened(t.entry, t.slp) == l);
}

proof fn lemma_books_managed(s: StrategyView, l: LedgerView, b: Bar)
    requires
        s.pos is Some,
        sized_for(s, l),
    ensures
        books_alike(l, s.managed(b).1, s.managed(b).0),
{
    let p = at_exits(s, b);
    let p1 = s.pos->0.run(b);
    let a = engine::earned(p1, s.cfg.ladder, s.cfg.ladder.len());
    let trail = s.cfg.trail_on && !a.same_number(p1.trail_a);
    let ev = EventView::Trail { ts: b.ts as int, a, sl: p.sl };
    let head = if trail {
        seq![ev]
    } else {
        seq![]
    };
    lemma_books_one(l, ev);
    assert(live_books(l, head) == l && warm_books(l, head) == l);
    let evs = s.managed(b).1;
    if p.stopped(b, s.cfg.sl_touch) || p.targeted(b, s.cfg.sl_touch) {
        assert(evs.drop_last() =~= head);
        let t = evs.last()->Close_0;
        assert(evs.last() == EventView::Close(t));
        lemma_books_close(s, l, t);
    } else {
        assert(evs =~= head);
    }
}

proof fn lemma_books_in_session(s: StrategyView, l: LedgerView, b: Bar)
    requires
        sized_for(s, l),
    ensures
        books_alike(l, s.in_session(b).1, s.in_session(b).0),
{
    let e = s.in_session(b).1;
    assert(live_books(l, Seq::<EventView>::empty()) == l);
    assert(warm_books(l, Seq::<EventView>::empty()) == l);
    if s.active_sd is Some && s.active_sd != Some(engine::date_key(b.ts as int)) {
        assert(e.last() is Session);
        if s.pos is Some {
            let t = s.closing("EOS"@, s.last_close_or(b.o), b.ts);
            assert(e.drop_last() =~= seq![EventView::Close(t)]);
            lemma_books_one(l, EventView::Close(t));
            lemma_books_close(s, l, t);
        } else {
            assert(e.drop_last() =~= seq![]);
        }
    }
}

proof fn lemma_books_checked(s: StrategyView, l: LedgerView, b: Bar)
    requires
        sized_for(s, l),
    ensures
        books_alike(l, s.checked(b).1, s.checked(b).0),
{
    assert(live_books(l, Seq::<EventView>::empty()) == l);
    assert(warm_books(l, Seq::<EventView>::empty()) == l);
    if let Some(side) = s.trigger(b) {
        let opened = s.entered(side, b, s.prev_poc->0);
        let ev = s.open_event(side, b, s.prev_poc->0);
        let p = s.entry(side, b, s.prev_poc->0);
        lemma_books_one(l, ev);
        let l1 = l.opened(p.entry, p.slp);
        assert(live_books(l, seq![ev]) == l1);
        assert(l1.sized(p.entry, p.slp) == l.sized(p.entry, p.slp));
        assert(sized_for(opened, l1));
        if s.cfg.same_bar_exits {
            lemma_books_managed(opened, l1, b);
            lemma_books_concat(l, seq![ev], opened.managed(b).1);
        }
    }
}

proof fn lemma_books_traded(s: StrategyView, l: LedgerView, b: Bar)
    requires
        sized_for(s, l),
    ensures
        books_alike(l, s.traded(b).1, s.traded(b).0),
{
    assert(live_books(l, Seq::<EventView>::empty()) == l);
    assert(warm_books(l, Seq::<EventView>::empty()) == l);
    if s.pos is Some {
        lemma_books_managed(s, l, b);
    }
    let (s1, e1) = s.managed_if_open(b);
    lemma_books_checked(s1, live_books(l, e1), b);
    lemma_books_concat(l, e1, s1.checked(b).1);
}

proof fn lemma_books_session_step(s: StrategyView, l: LedgerView, b: Bar)
    requires
        sized_for(s, l),
    ensures
        books_alike(l, s.session_step(b).1, s.session_step(b).0),
{
    reveal(StrategyView::session_step);
    let (s1, e1) = s.in_session(b);
    lemma_books_in_session(s, l, b);
    let s2 = StrategyView { session_bars: s1.session_bars.push(b), eos_done: false, ..s1 };
    lemma_books_traded(s2, live_books(l, e1), b);
    lemma_books_concat(l, e1, s2.traded(b).1);
}

proof fn lemma_books_step(s: StrategyView, l: LedgerView, b: Bar)
    requires
        sized_for(s, l),
    ensures
        books_alike(l, s.step(b).1, s.step(b).0),
{
    assert(live_books(l, Seq::<EventView>::empty()) == l);
    assert(warm_books(l, Seq::<EventView>::empty()) == l);
    let s0 = s.taken(b);
    lemma_books_session_step(s0, l, b);
    if s0.pos is Some && !s0.eos_done {
        let t = s0.closing("EOS"@, s0.last_close_or(b.c), b.ts);
        assert(s0.idle(b).1 =~= seq![EventView::Close(t)]);
        lemma_books_one(l, EventView::Close(t));
        lemma_books_close(s0, l, t);
    }
}

/// A restart comes to the same books: whatever bars the engine is fed, booking
/// what it tells as events of the past leaves the ledger as booking it live
/// does. The size of an open position is known either way.
#[verifier::spinoff_prover]
pub proof fn law_restart_books_the_same(cfg: CfgView, l: LedgerView, bars: Seq<Bar>)
    ensures
        ({
            let (s, evs) = StrategyView::fresh(cfg).steps(bars);
            &&& warm_books(l, evs) == live_books(l, evs)
            &&& s.pos matches Some(p) ==> live_books(l, evs).open_sizing == Some(
                live_books(l, evs).sized(p.entry, p.slp),
            )
        }),
    decreases bars.len(),
{
    let f = StrategyView::fresh(cfg);
    if bars.len() == 0 {
        assert(bars =~= seq![]);
        engine::lemma_no_bars(f);
        assert(live_books(l, Seq::<EventView>::empty()) == l);
        assert(warm_books(l, Seq::<EventView>::empty()) == l);
    } else {
        law_restart_books_the_same(cfg, l, bars.drop_last());
        engine::lemma_one_more_bar(f, bars);
        let (s, e) = f.steps(bars.drop_last());
        let told = s.step(bars.last()).1;
        lemma_books_step(s, live_books(l, e), bars.last());
        lemma_books_concat(l, e, told);
    }
}

} // verus!
