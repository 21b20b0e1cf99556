//! What the events of a whole history tell: positions are opened and closed in
//! turn, each session at most once.

use crate::engine;
use crate::engine::{CfgView, EventView, StrategyView, TradeView};
use crate::laws;
use crate::profile::Bar;
use vstd::prelude::*;

verus! {

/// The session of the open position, where there is one.
pub open spec fn held(s: StrategyView) -> Option<Seq<char>> {
    match s.pos {
        Some(p) => Some(p.session),
        None => None,
    }
}

/// The sessions in which a position was entered: those of the trades, and that
/// of the open position.
pub open spec fn entered(s: StrategyView) -> Seq<Seq<char>> {
    let done = s.trades.map_values(|t: TradeView| t.session);
    match s.pos {
        Some(p) => done.push(p.session),
        None => done,
    }
}

/// The session of the position that is open after some events, where `from` is
/// that of the one open before them.
pub open spec fn open_after(from: Option<Seq<char>>, evs: Seq<EventView>) -> Option<Seq<char>>
    decreases evs.len(),
{
    if evs.len() == 0 {
        from
    } else {
        match evs.last() {
            EventView::Open { session, .. } => Some(session),
            EventView::Close(_) => None,
            _ => open_after(from, evs.drop_last()),
        }
    }
}

/// The sessions of the positions that some events open.
pub open spec fn opens(evs: Seq<EventView>) -> Seq<Seq<char>>
    decreases evs.len(),
{
    if evs.len() == 0 {
        seq![]
    } else {
        match evs.last() {
            EventView::Open { session, .. } => opens(evs.drop_last()).push(session),
            _ => opens(evs.drop_last()),
        }
    }
}

/// Whether it is one of the ways in which a bar ends a trade.
pub open spec fn way_out(exit_type: Seq<char>) -> bool {
    exit_type == "SL"@ || exit_type == "TP"@ || exit_type == "EOS"@
}

/// Whether an event comes in its turn where a position of the session `open` is
/// open, or none: an opening only where none is, a close only of that one, and
/// by the stop, the target or the end of the session.
pub open spec fn due(open: Option<Seq<char>>, ev: EventView) -> bool {
    match ev {
        EventView::Open { .. } => open is None,
        EventView::Close(t) => open == Some(t.session) && way_out(t.exit_type),
        _ => true,
    }
}

/// Whether all events come in their turn.
pub open spec fn in_turn(from: Option<Seq<char>>, evs: Seq<EventView>) -> bool {
    forall|i: int|
        0 <= i < evs.len() ==> due(open_after(from, evs.take(i)), #[trigger] evs[i])
}

/// Whether events lead from a state to another: they come in turn, and the
/// positions that they open are those that were entered in between.
pub open spec fn tells(s: StrategyView, evs: Seq<EventView>, t: StrategyView) -> bool {
    &&& in_turn(held(s), evs)
    &&& open_after(held(s), evs) == held(t)
    &&& entered(t) == entered(s) + opens(evs)
}

proof fn lemma_open_after_concat(from: Option<Seq<char>>, a: Seq<EventView>, b: Seq<EventView>)
    ensures
        open_after(from, a + b) == open_after(open_after(from, a), b),
        opens(a + b) == opens(a) + opens(b),
    decreases b.len(),
{
    if b.len() == 0 {
        assert(a + b =~= a);
    } else {
        assert((a + b).drop_last() =~= a + b.drop_last());
        lemma_open_after_concat(from, a, b.drop_last());
    }
}

proof fn lemma_tells_concat(
    s: StrategyView,
    a: Seq<EventView>,
    t: StrategyView,
    b: Seq<EventView>,
    u: StrategyView,
)
    requires
        tells(s, a, t),
        tells(t, b, u),
    ensures
        tells(s, a + b, u),
{
    let from = held(s);
    lemma_open_after_concat(from, a, b);
    assert(entered(u) =~= entered(s) + opens(a + b));
    let all = a + b;
    assert forall|i: int| 0 <= i < all.len() implies due(
        open_after(from, all.take(i)),
        #[trigger] all[i],
    ) by {
        if i < a.len() {
            assert(all.take(i) =~= a.take(i));
            assert(all[i] == a[i]);
        } else {
            assert(all.take(i) =~= a + b.take(i - a.len()));
            lemma_open_after_concat(from, a, b.take(i - a.len()));
            assert(all[i] == b[i - a.len()]);
        }
    }
}

/// Nothing told leaves the open session and the trades alone.
proof fn lemma_tells_nothing(s: StrategyView, t: StrategyView)
    requires
        held(t) == held(s),
        t.trades == s.trades,
    ensures
        tells(s, seq![], t),
{
    assert(entered(s) + opens(seq![]) =~= entered(s));
}

/// One event.
proof fn lemma_tells_one(s: StrategyView, ev: EventView, t: StrategyView)
    requires
        due(held(s), ev),
        match ev {
            EventView::Open { session, .. } => {
                &&& t.trades == s.trades
                &&& held(t) == Some(session)
            },
            EventView::Close(x) => {
                &&& t.trades == s.trades.push(x)
                &&& held(t) is None
            },
            _ => {
                &&& t.trades == s.trades
                &&& held(t) == held(s)
            },
        },
    ensures
        tells(s, seq![ev], t),
{
    let evs = seq![ev];
    assert(evs.drop_last() =~= seq![]);
    assert(open_after(held(s), evs.drop_last()) == held(s));
    assert(opens(evs.drop_last()) =~= seq![]);
    assert forall|i: int| 0 <= i < evs.len() implies due(
        open_after(held(s), evs.take(i)),
        #[trigger] evs[i],
    ) by {
        assert(evs.take(i) =~= seq![]);
    }
    assert(entered(t) =~= entered(s) + opens(evs));
}

#[verifier::spinoff_prover]
proof fn lemma_tells_managed(s: StrategyView, b: Bar)
    requires
        s.pos is Some,
    ensures
        tells(s, s.managed(b).1, s.managed(b).0),
{
    let p = laws::at_exits(s, b);
    let p1 = s.pos->0.run(b);
    let a = engine::earned(p1, s.cfg.ladder, s.cfg.ladder.len());
    let ev = EventView::Trail { ts: b.ts as int, a, sl: p.sl };
    let s1 = StrategyView { pos: Some(p), ..s };
    let (s2, head) = if s.cfg.trail_on && !a.same_number(p1.trail_a) {
        lemma_tells_one(s, ev, s1.told(ev));
        (s1.told(ev), seq![ev])
    } else {
        lemma_tells_nothing(s, s1);
        (s1, seq![])
    };
    let (t, evs) = s.managed(b);
    if p.stopped(b, s.cfg.sl_touch) || p.targeted(b, s.cfg.sl_touch) {
        let close = evs.last();
        lemma_tells_one(s2, close, t);
        lemma_tells_concat(s, head, s2, seq![close], t);
        assert(evs =~= head + seq![close]);
    } else {
        assert(evs =~= head);
    }
}

#[verifier::spinoff_prover]
proof fn lemma_tells_in_session(s: StrategyView, b: Bar)
    ensures
        tells(s, s.in_session(b).1, s.in_session(b).0),
{
    let (t, evs) = s.in_session(b);
    if s.active_sd is Some && s.active_sd != Some(engine::date_key(b.ts as int)) {
        let fill = s.last_close_or(b.o);
        let (s1, head) = if s.pos is Some {
            let close = EventView::Close(s.closing("EOS"@, fill, b.ts));
            lemma_tells_one(s, close, s.flat("EOS"@, fill, b.ts));
            (s.flat("EOS"@, fill, b.ts), seq![close])
        } else {
            lemma_tells_nothing(s, s);
            (s, seq![])
        };
        let ev = evs.last();
        lemma_tells_one(s1, ev, t);
        lemma_tells_concat(s, head, s1, seq![ev], t);
        assert(evs =~= head + seq![ev]);
    } else {
        lemma_tells_nothing(s, t);
    }
}

#[verifier::spinoff_prover]
proof fn lemma_tells_checked(s: StrategyView, b: Bar)
    ensures
        tells(s, s.checked(b).1, s.checked(b).0),
{
    match s.trigger(b) {
        Some(side) => {
            let opened = s.entered(side, b, s.prev_poc->0);
            let ev = s.open_event(side, b, s.prev_poc->0);
            lemma_tells_one(s, ev, opened);
            if s.cfg.same_bar_exits {
                lemma_tells_managed(opened, b);
                lemma_tells_concat(s, seq![ev], opened, opened.managed(b).1, s.checked(b).0);
            }
        },
        None => {
            lemma_tells_nothing(s, s);
        },
    }
}

proof fn lemma_tells_traded(s: StrategyView, b: Bar)
    ensures
        tells(s, s.traded(b).1, s.traded(b).0),
{
    let (s1, e1) = s.managed_if_open(b);
    if s.pos is Some {
        lemma_tells_managed(s, b);
    } else {
        lemma_tells_nothing(s, s);
    }
    lemma_tells_checked(s1, b);
    lemma_tells_concat(s, e1, s1, s1.checked(b).1, s1.checked(b).0);
}

proof fn lemma_tells_session_step(s: StrategyView, b: Bar)
    ensures
        tells(s, s.session_step(b).1, s.session_step(b).0),
{
    reveal(StrategyView::session_step);
    let (s1, e1) = s.in_session(b);
    let s2 = StrategyView { session_bars: s1.session_bars.push(b), eos_done: false, ..s1 };
    lemma_tells_in_session(s, b);
    lemma_tells_traded(s2, b);
    assert(tells(s, e1, s2));
    lemma_tells_concat(s, e1, s2, s2.traded(b).1, s2.traded(b).0);
}

proof fn lemma_tells_step(s: StrategyView, b: Bar)
    ensures
        tells(s, s.step(b).1, s.step(b).0),
{
    let s0 = s.taken(b);
    if b.ts <= s.last_bar_ts {
        lemma_tells_nothing(s, s);
    } else if engine::trading_day(b.ts as int) {
        lemma_tells_session_step(s0, b);
        assert(entered(s0) == entered(s));
    } else if s0.pos is Some && !s0.eos_done {
        lemma_tells_one(s, s0.idle(b).1[0], s0.idle(b).0);
        assert(s0.idle(b).1 =~= seq![s0.idle(b).1[0]]);
    } else {
        lemma_tells_nothing(s, s0);
    }
}

proof fn lemma_tells_steps(s: StrategyView, bars: Seq<Bar>)
    ensures
        tells(s, s.steps(bars).1, s.steps(bars).0),
        s.steps(bars).0.trades == s.trades + laws::closes(s.steps(bars).1),
    decreases bars.len(),
{
    if bars.len() == 0 {
        assert(bars =~= seq![]);
        engine::lemma_no_bars(s);
        lemma_tells_nothing(s, s);
        assert(s.trades + laws::closes(seq![]) =~= s.trades);
    } else {
        let (t, e) = s.steps(bars.drop_last());
        lemma_tells_steps(s, bars.drop_last());
        engine::lemma_one_more_bar(s, bars);
        lemma_tells_step(t, bars.last());
        lemma_tells_concat(s, e, t, t.step(bars.last()).1, t.step(bars.last()).0);
        laws::law_trades_are_told(t, bars.last());
        laws::lemma_closes_concat(e, t.step(bars.last()).1);
        assert((s.trades + laws::closes(e)) + laws::closes(t.step(bars.last()).1) =~= s.trades + (
        laws::closes(e) + laws::closes(t.step(bars.last()).1)));
    }
}

/// What one more event makes of it.
proof fn lemma_open_after_one(from: Option<Seq<char>>, evs: Seq<EventView>, i: int)
    requires
        0 <= i < evs.len(),
    ensures
        open_after(from, evs.take(i + 1)) == match evs[i] {
            EventView::Open { session, .. } => Some(session),
            EventView::Close(_) => None,
            _ => open_after(from, evs.take(i)),
        },
        opens(evs.take(i + 1)) == match evs[i] {
            EventView::Open { session, .. } => opens(evs.take(i)).push(session),
            _ => opens(evs.take(i)),
        },
{
    assert(evs.take(i + 1).drop_last() =~= evs.take(i));
    assert(evs.take(i + 1).last() == evs[i]);
}

/// The openings among the first events are the first openings.
proof fn lemma_opens_prefix(evs: Seq<EventView>, i: int)
    requires
        0 <= i <= evs.len(),
    ensures
        opens(evs.take(i)).len() <= opens(evs).len(),
        opens(evs.take(i)) == opens(evs).take(opens(evs.take(i)).len() as int),
{
    let rest = evs.skip(i);
    assert(evs =~= evs.take(i) + rest);
    lemma_open_after_concat(None, evs.take(i), rest);
    assert(opens(evs.take(i)) =~= opens(evs).take(opens(evs.take(i)).len() as int));
}

/// Where no opening and no close lies between, the same stays open.
proof fn lemma_open_stays(from: Option<Seq<char>>, evs: Seq<EventView>, i: int, j: int)
    requires
        0 <= i <= j <= evs.len(),
        forall|k: int| i <= k < j ==> !(#[trigger] evs[k] is Open) && !(evs[k] is Close),
    ensures
        open_after(from, evs.take(j)) == open_after(from, evs.take(i)),
    decreases j - i,
{
    if i < j {
        lemma_open_stays(from, evs, i, j - 1);
        lemma_open_after_one(from, evs, j - 1);
    }
}

/// The first close after `i` and before `j`, where there is one.
proof fn lemma_first_close(evs: Seq<EventView>, i: int, j: int) -> (k: int)
    requires
        0 <= i < j <= evs.len(),
    ensures
        i < k <= j,
        forall|m: int| i < m < k ==> !(#[trigger] evs[m] is Close),
        k < j ==> evs[k] is Close,
    decreases j - i,
{
    if j == i + 1 {
        j
    } else {
        let k = lemma_first_close(evs, i, j - 1);
        if k < j - 1 || evs[j - 1] is Close {
            k
        } else {
            j
        }
    }
}

/// Whether the events at `i` and `j` open positions, and none between does.
pub open spec fn next_to_each_other(evs: Seq<EventView>, i: int, j: int) -> bool {
    &&& 0 <= i < j < evs.len()
    &&& evs[i] is Open
    &&& evs[j] is Open
    &&& forall|k: int| i < k < j ==> !(#[trigger] evs[k] is Open)
}

/// Whether the event at `k` is the only close between `i` and `j`, and closes
/// the position that the event at `i` opens.
pub open spec fn only_close(evs: Seq<EventView>, i: int, k: int, j: int) -> bool {
    &&& i < k < j
    &&& evs[k] matches EventView::Close(t) && t.session == evs[i]->Open_session
    &&& forall|m: int| i < m < j && #[trigger] evs[m] is Close ==> m == k
}

/// Between two openings next to each other the first position is closed, once.
proof fn lemma_closed_between(from: Option<Seq<char>>, evs: Seq<EventView>, i: int, j: int)
    requires
        in_turn(from, evs),
        next_to_each_other(evs, i, j),
    ensures
        exists|k: int| only_close(evs, i, k, j),
{
    let label = evs[i]->Open_session;
    lemma_open_after_one(from, evs, i);
    let k = lemma_first_close(evs, i, j);
    lemma_open_stays(from, evs, i + 1, k);
    assert(due(open_after(from, evs.take(j)), evs[j]));
    assert(k < j);
    assert(due(open_after(from, evs.take(k)), evs[k]));
    lemma_open_after_one(from, evs, k);
    assert forall|m: int| i < m < j && #[trigger] evs[m] is Close implies m == k by {
        if m > k {
            let n = lemma_first_close(evs, k, j);
            lemma_open_stays(from, evs, k + 1, n);
            assert(due(open_after(from, evs.take(n)), evs[n]));
        }
    }
    assert(only_close(evs, i, k, j));
}

/// What a history tells, read as a whole: no session has more than one opening;
/// between two openings next to each other the first position is closed, once,
/// and every other close is of the last opening too, for all events come in
/// their turn; a trade is ended by its stop, its target or the end of its
/// session; and the trades are those that the closes carry, in order.
pub proof fn law_opened_and_closed_in_turn(cfg: CfgView, bars: Seq<Bar>)
    ensures
        ({
            let (s, evs) = StrategyView::fresh(cfg).steps(bars);
            &&& forall|i: int, j: int|
                #![trigger evs[i], evs[j]]
                0 <= i < j < evs.len() && evs[i] is Open && evs[j] is Open
                    ==> evs[i]->Open_session != evs[j]->Open_session
            &&& forall|i: int, j: int|
                #[trigger] next_to_each_other(evs, i, j) ==> exists|k: int|
                    only_close(evs, i, k, j)
            &&& forall|i: int|
                0 <= i < evs.len() ==> (#[trigger] evs[i] matches EventView::Close(t)
                    ==> way_out(t.exit_type))
            &&& in_turn(None, evs)
            &&& open_after(None, evs) == held(s)
            &&& s.trades == laws::closes(evs)
        }),
{
    let f = StrategyView::fresh(cfg);
    let (s, evs) = f.steps(bars);
    lemma_tells_steps(f, bars);
    laws::law_one_trade_per_session(cfg, bars);
    assert(s.trades =~= laws::closes(evs));
    assert(entered(s) =~= opens(evs));
    assert forall|i: int, j: int| #[trigger] next_to_each_other(evs, i, j) implies exists|k: int|
        only_close(evs, i, k, j) by {
        lemma_closed_between(None, evs, i, j);
    }
    assert forall|i: int, j: int|
        #![trigger evs[i], evs[j]]
        0 <= i < j < evs.len() && evs[i] is Open && evs[j] is Open implies evs[i]->Open_session
        != evs[j]->Open_session by {
        let a = opens(evs.take(i)).len() as int;
        let b = opens(evs.take(j)).len() as int;
        lemma_open_after_one(None, evs, i);
        lemma_open_after_one(None, evs, j);
        lemma_opens_prefix(evs, i + 1);
        lemma_opens_prefix(evs, j + 1);
        lemma_opens_prefix(evs.take(j), i + 1);
        assert(evs.take(j).take(i + 1) =~= evs.take(i + 1));
        assert(a < b);
        assert(opens(evs)[a] == opens(evs.take(i + 1))[a]);
        assert(opens(evs)[b] == opens(evs.take(j + 1))[b]);
        assert(a < s.trades.len());
        assert(entered(s)[a] == s.trades[a].session);
        if b < s.trades.len() {
            assert(entered(s)[b] == s.trades[b].session);
        }
    }
    assert forall|i: int| 0 <= i < evs.len() implies (#[trigger] evs[i] matches EventView::Close(t)
        ==> way_out(t.exit_type)) by {
        assert(due(open_after(None, evs.take(i)), evs[i]));
    }
}

} // verus!
