//! The stop of a position over all the bars that it was managed over.

use crate::double;
use crate::double::Double;
use crate::engine;
use crate::engine::{CfgView, EventView, PosView, StrategyView, LONG};
use crate::laws;
use crate::profile::Bar;
use vstd::prelude::*;

verus! {

/// Nothing.
pub open spec fn nought() -> Double {
    Double { bits: 0 }
}

/// The position as it was entered.
pub open spec fn as_entered(p: PosView) -> PosView {
    PosView { sl: p.sl0, runx: p.entry, trail_a: nought(), bars_held: 0, ..p }
}

/// The position as the exits of the bar `b` see it.
pub open spec fn after_bar(p: PosView, cfg: CfgView, b: Bar) -> PosView {
    let q = p.run(b);
    let a = engine::earned(q, cfg.ladder, cfg.ladder.len());
    if cfg.trail_on && !a.same_number(q.trail_a) {
        q.trailed(a)
    } else {
        q
    }
}

/// The position as the exits of the last of some bars see it.
pub open spec fn after_bars(p: PosView, cfg: CfgView, bars: Seq<Bar>) -> PosView
    decreases bars.len(),
{
    if bars.len() == 0 {
        p
    } else {
        after_bar(after_bars(p, cfg, bars.drop_last()), cfg, bars.last())
    }
}

/// The best price over the entry and some bars: the highest for a long trade,
/// the lowest for a short one.
pub open spec fn best_price(side: i8, entry: Double, bars: Seq<Bar>) -> Double
    decreases bars.len(),
{
    if bars.len() == 0 {
        entry
    } else {
        let before = best_price(side, entry, bars.drop_last());
        if side == LONG {
            before.larger(bars.last().h)
        } else {
            before.smaller(bars.last().l)
        }
    }
}

/// Whether the best price has reached a rung of the ladder.
pub open spec fn on_rung(p: PosView, ladder: Seq<(Double, Double)>, i: int) -> bool {
    engine::reached(p, engine::milestone(p, ladder[i].0))
}

/// Whether what the position has locked in is nothing, or a rung that its best
/// price has reached.
pub open spec fn locked_a_rung(p: PosView, ladder: Seq<(Double, Double)>) -> bool {
    ||| p.trail_a == nought()
    ||| nought().below(p.trail_a) && exists|i: int|
        0 <= i < ladder.len() && #[trigger] on_rung(p, ladder, i) && ladder[i].1 == p.trail_a
}

/// Whether no rung that the best price has reached is worth more than what the
/// position has locked in.
pub open spec fn locked_the_best(p: PosView, ladder: Seq<(Double, Double)>) -> bool {
    forall|i: int|
        0 <= i < ladder.len() && #[trigger] on_rung(p, ladder, i) ==> !p.trail_a.below(ladder[i].1)
}

/// The stop that belongs to what the position has locked in: the first one where
/// that is nothing, or else the one of the rung.
pub open spec fn due_stop(p: PosView) -> Double {
    if p.trail_a == nought() {
        p.sl0
    } else {
        p.stop_for(p.trail_a)
    }
}

/// Whether the levels of a position are those that its entry set.
pub open spec fn entry_levels(p: PosView) -> bool {
    &&& p.sl0 == if p.side == LONG {
        p.entry.product(engine::one().difference(p.slp))
    } else {
        p.entry.product(engine::one().sum(p.slp))
    }
    &&& p.slp.nan() || (engine::sl_min().at_most(p.slp) && p.slp.at_most(engine::sl_max()))
}

/// Whether the entry price is one that a market has, and the stop distance a
/// number.
pub open spec fn priced(p: PosView) -> bool {
    &&& p.entry.finite()
    &&& !p.entry.negative()
    &&& !p.entry.zero()
    &&& !p.slp.nan()
}

/// Whether `q` is the position `p` later on.
pub open spec fn same_position(p: PosView, q: PosView) -> bool {
    &&& q.side == p.side
    &&& q.entry == p.entry
    &&& q.sl0 == p.sl0
    &&& q.tp == p.tp
    &&& q.slp == p.slp
    &&& q.session == p.session
    &&& q.entry_ts == p.entry_ts
    &&& q.rr == p.rr
}

proof fn lemma_same_position(p: PosView, cfg: CfgView, bars: Seq<Bar>)
    ensures
        same_position(p, after_bars(p, cfg, bars)),
    decreases bars.len(),
{
    if bars.len() > 0 {
        lemma_same_position(p, cfg, bars.drop_last());
    }
}

/// What the rungs have earned: no less than before, and no less than any rung
/// that is reached.
proof fn lemma_earned(p: PosView, ladder: Seq<(Double, Double)>, n: nat)
    requires
        n <= ladder.len(),
        !p.trail_a.nan(),
    ensures
        ({
            let e = engine::earned(p, ladder, n);
            &&& p.trail_a.at_most(e)
            &&& e == p.trail_a || (p.trail_a.below(e) && exists|i: int|
                0 <= i < n && #[trigger] on_rung(p, ladder, i) && ladder[i].1 == e)
            &&& forall|i: int|
                0 <= i < n && #[trigger] on_rung(p, ladder, i) ==> !e.below(ladder[i].1)
        }),
    decreases n,
{
    if n > 0 {
        lemma_earned(p, ladder, (n - 1) as nat);
        let best = engine::earned(p, ladder, (n - 1) as nat);
        let e = engine::earned(p, ladder, n);
        assert(on_rung(p, ladder, n - 1) == engine::reached(
            p,
            engine::milestone(p, ladder[n - 1].0),
        ));
        if e != best {
            assert(on_rung(p, ladder, n - 1) && ladder[n - 1].1 == e);
        }
        assert forall|i: int| 0 <= i < n && #[trigger] on_rung(p, ladder, i) implies !e.below(
            ladder[i].1,
        ) by {
            if i < n - 1 {
                assert(!best.below(ladder[i].1));
            }
        }
    }
}

/// A stop distance within its bounds is positive and below one.
proof fn lemma_distance(slp: Double)
    requires
        engine::sl_min().at_most(slp),
        slp.at_most(engine::sl_max()),
    ensures
        !slp.negative(),
        slp.finite(),
        !slp.zero(),
        slp.at_most(engine::one()),
{
    double::lemma_positive_ratio(5, 10_000);
    double::lemma_ratio_order(5, 1_000, 1, 1);
    double::lemma_one();
    double::lemma_between(engine::sl_min(), slp, engine::one());
}

/// The step from the entry that a rung is worth.
pub open spec fn rung_step(p: PosView, a: Double) -> Double {
    a.product(p.slp).product(p.entry)
}

/// A higher rung is worth a larger step.
proof fn lemma_step_order(p: PosView, a: Double, b: Double)
    requires
        priced(p),
        entry_levels(p),
        a.at_most(b),
        !a.negative(),
        !b.negative(),
    ensures
        rung_step(p, a).at_most(rung_step(p, b)),
        !rung_step(p, a).negative(),
        !rung_step(p, b).negative(),
{
    lemma_distance(p.slp);
    double::lemma_product_order(a, b, p.slp);
    double::lemma_product_order(a.product(p.slp), b.product(p.slp), p.entry);
}

/// The first stop lies on the losing side of the entry.
proof fn lemma_first_stop(p: PosView)
    requires
        priced(p),
        entry_levels(p),
    ensures
        p.side == LONG ==> p.sl0.at_most(p.entry),
        p.side != LONG ==> p.entry.at_most(p.sl0),
{
    let one = engine::one();
    let slp = p.slp;
    lemma_distance(slp);
    double::lemma_one();
    double::lemma_product_one(p.entry);
    double::lemma_nonnegative(slp);
    double::lemma_nonnegative(one);
    let z = nought();
    double::lemma_nonnegative(z);
    if p.side == LONG {
        // 0 <= 1 - slp <= 1
        double::lemma_opposite_order(z, slp);
        double::lemma_opposite_order(slp, one);
        double::lemma_sum_order(one, slp.opposite(), z.opposite());
        double::lemma_sum_zero(one, z.opposite());
        double::lemma_sum_order(one, one.opposite(), slp.opposite());
        double::lemma_sum_opposite(one);
        let d = one.difference(slp);
        double::lemma_sum_not_negative_zero(one, slp.opposite());
        double::lemma_product_order(d, one, p.entry);
        double::lemma_product_commutes(d, p.entry);
        double::lemma_product_commutes(one, p.entry);
    } else {
        double::lemma_sum_order(one, z, slp);
        double::lemma_sum_zero(one, z);
        let d = one.sum(slp);
        double::lemma_sum_not_negative_zero(one, slp);
        double::lemma_product_order(one, d, p.entry);
        double::lemma_product_commutes(d, p.entry);
        double::lemma_product_commutes(one, p.entry);
    }
}

/// The stops of higher rungs are nearer to the target, and all of them lie
/// beyond the first stop.
proof fn lemma_stop_order(p: PosView, a: Double, b: Double)
    requires
        priced(p),
        entry_levels(p),
        a.at_most(b),
        !a.negative(),
        !b.negative(),
    ensures
        p.side == LONG ==> p.stop_for(a).at_most(p.stop_for(b)) && p.sl0.at_most(p.stop_for(b))
            && p.stop_for(b).value() > 0,
        p.side != LONG ==> p.stop_for(b).at_most(p.stop_for(a)) && p.stop_for(b).at_most(p.sl0)
            && p.sl0.value() > 0,
        p.side != LONG && p.stop_for(a).value() == 0 ==> p.stop_for(a) == nought(),
        p.side != LONG && p.stop_for(b).value() == 0 ==> p.stop_for(b) == nought(),
{
    let e = p.entry;
    let x = rung_step(p, a);
    let y = rung_step(p, b);
    let z = nought();
    lemma_step_order(p, a, b);
    lemma_first_stop(p);
    double::lemma_nonnegative(e);
    double::lemma_nonnegative(x);
    double::lemma_nonnegative(y);
    double::lemma_nonnegative(z);
    if p.side == LONG {
        double::lemma_sum_order(e, x, y);
        double::lemma_sum_order(e, z, y);
        double::lemma_sum_zero(e, z);
    } else {
        double::lemma_opposite_order(x, y);
        double::lemma_opposite_order(z, y);
        double::lemma_opposite_order(y, y);
        double::lemma_sum_order(e, y.opposite(), x.opposite());
        double::lemma_sum_order(e, y.opposite(), z.opposite());
        double::lemma_sum_zero(e, z.opposite());
        if p.stop_for(a).value() == 0 {
            double::lemma_sum_to_zero(e, x.opposite());
        }
        if p.stop_for(b).value() == 0 {
            double::lemma_sum_to_zero(e, y.opposite());
        }
    }
}

/// Drawn along to a higher rung, the stop is that of the rung.
proof fn lemma_trailed_stop(p: PosView, a: Double)
    requires
        priced(p),
        entry_levels(p),
        p.sl == due_stop(p),
        p.trail_a == nought() || nought().below(p.trail_a),
        p.trail_a.below(a),
    ensures
        p.trailed(a).sl == p.stop_for(a),
{
    double::lemma_nonnegative(nought());
    double::lemma_positive(p.trail_a);
    double::lemma_positive(a);
    lemma_stop_order(p, p.trail_a, a);
    let s = p.stop_for(a);
    if p.side == LONG {
        if !p.sl.below(s) {
            double::lemma_same_bits(p.sl, s);
        }
    } else if !s.below(p.sl) && s.value() != 0 {
        double::lemma_same_bits(p.sl, s);
    }
}

/// The stop over all bars: whatever bars a position is managed over, the exits
/// of the last of them see the best price over entry and bars, what is locked in
/// is the largest rung that this price has reached (nothing where it has reached
/// none that is worth anything), and the stop is the one of that rung, or the
/// first one where nothing is locked in.
pub proof fn law_stop_is_of_the_best_rung(p: PosView, cfg: CfgView, bars: Seq<Bar>)
    requires
        p == as_entered(p),
        entry_levels(p),
        priced(p),
        cfg.trail_on,
    ensures
        ({
            let q = after_bars(p, cfg, bars);
            &&& same_position(p, q)
            &&& q.runx == best_price(p.side, p.entry, bars)
            &&& locked_a_rung(q, cfg.ladder)
            &&& bars.len() > 0 ==> locked_the_best(q, cfg.ladder)
            &&& q.sl == due_stop(q)
            &&& !q.runx.nan()
        }),
    decreases bars.len(),
{
    if bars.len() > 0 {
        let b = bars.last();
        let ladder = cfg.ladder;
        law_stop_is_of_the_best_rung(p, cfg, bars.drop_last());
        let before = after_bars(p, cfg, bars.drop_last());
        let run = before.run(b);
        let q = after_bars(p, cfg, bars);
        assert(q == after_bar(before, cfg, b));
        double::lemma_nonnegative(nought());
        lemma_earned(run, ladder, ladder.len());
        let a = engine::earned(run, ladder, ladder.len());
        // what was reached stays reached
        assert forall|i: int| 0 <= i < ladder.len() && #[trigger] on_rung(
            before,
            ladder,
            i,
        ) implies on_rung(run, ladder, i) by {}
        assert(locked_a_rung(run, ladder)) by {
            if before.trail_a != nought() {
                let i = choose|i: int|
                    0 <= i < ladder.len() && #[trigger] on_rung(before, ladder, i) && ladder[i].1
                        == before.trail_a;
                assert(on_rung(run, ladder, i));
            }
        }
        assert(due_stop(run) == due_stop(before));
        if a.same_number(run.trail_a) {
            assert(q == run);
        } else {
            assert(run.trail_a.below(a));
            lemma_trailed_stop(run, a);
            let i = choose|i: int|
                0 <= i < ladder.len() && #[trigger] on_rung(run, ladder, i) && ladder[i].1 == a;
            assert(on_rung(q, ladder, i));
            assert(due_stop(q) == q.stop_for(a));
        }
        assert forall|i: int| 0 <= i < ladder.len() && #[trigger] on_rung(
            q,
            ladder,
            i,
        ) implies !q.trail_a.below(ladder[i].1) by {
            assert(on_rung(run, ladder, i));
        }
    }
}

// ---------------------------------------------------------------------------
// In the engine
// ---------------------------------------------------------------------------

/// The bars that the open position was managed over: the last bars of its
/// session, as many as it was held.
pub open spec fn managed_bars(s: StrategyView) -> Seq<Bar> {
    s.session_bars.skip(s.session_bars.len() - s.pos->0.bars_held)
}

/// Whether the open position is what managing it over those bars has made of
/// its entry.
pub open spec fn ratcheted(s: StrategyView) -> bool {
    s.pos matches Some(p) ==> {
        &&& 0 <= p.bars_held <= s.session_bars.len()
        &&& entry_levels(p)
        &&& p == after_bars(as_entered(p), s.cfg, managed_bars(s))
    }
}

proof fn lemma_managed_on(s: StrategyView, b: Bar, before: Seq<Bar>)
    requires
        s.pos is Some,
        entry_levels(s.pos->0),
        s.pos->0 == after_bars(as_entered(s.pos->0), s.cfg, before),
        s.pos->0.bars_held == before.len(),
        s.pos->0.bars_held < i64::MAX,
        before.len() < s.session_bars.len(),
        before.push(b) == s.session_bars.skip(s.session_bars.len() - before.len() - 1),
    ensures
        ratcheted(s.managed(b).0),
{
    let p = s.pos->0;
    let q = after_bar(p, s.cfg, b);
    assert(before.push(b).drop_last() =~= before);
    assert(before.push(b).last() == b);
    let t = s.managed(b).0;
    if t.pos is Some {
        assert(t.pos == Some(q));
        assert(as_entered(q) == as_entered(p));
        assert(managed_bars(t) =~= before.push(b));
    }
}

proof fn lemma_entry(s: StrategyView, side: i8, b: Bar, price: Double)
    ensures
        ({
            let p = s.entry(side, b, price);
            &&& entry_levels(p)
            &&& p == as_entered(p)
        }),
{
    laws::law_stop_distance_bounded(s, side, b, price);
}

/// A position that the bar `b` opens is what managing it has made of its entry.
proof fn lemma_ratcheted_checked(s: StrategyView, b: Bar)
    requires
        ratcheted(s),
        s.session_bars.len() > 0,
        s.session_bars.last() == b,
    ensures
        ratcheted(s.checked(b).0),
{
    if let Some(side) = s.trigger(b) {
        let price = s.prev_poc->0;
        lemma_entry(s, side, b, price);
        let t = s.entered(side, b, price);
        let none = Seq::<Bar>::empty();
        assert(managed_bars(t) =~= none);
        assert(after_bars(as_entered(t.pos->0), t.cfg, none) == t.pos->0);
        if s.cfg.same_bar_exits {
            assert(none.push(b) =~= t.session_bars.skip(t.session_bars.len() - 1));
            lemma_managed_on(t, b, none);
        }
    }
}

/// A position that was open before the bar `b` is managed over it.
proof fn lemma_ratcheted_managed(s: StrategyView, t: StrategyView, b: Bar)
    requires
        ratcheted(s),
        t.pos == s.pos,
        t.cfg == s.cfg,
        t.pos is Some ==> t.session_bars == s.session_bars.push(b),
        s.pos matches Some(p) ==> p.bars_held < i64::MAX,
    ensures
        ratcheted(t.managed_if_open(b).0),
        t.managed_if_open(b).0.session_bars == t.session_bars,
{
    if t.pos is Some {
        let before = managed_bars(s);
        assert(before.push(b) =~= t.session_bars.skip(t.session_bars.len() - before.len() - 1));
        lemma_managed_on(t, b, before);
    }
}

/// Where putting the session of `b` in place leaves a position open, it leaves
/// the session alone.
proof fn lemma_open_in_session(s: StrategyView, b: Bar)
    requires
        s.wf(),
    ensures
        ({
            let t = s.in_session(b).0;
            &&& t.pos is Some ==> t.pos == s.pos && t.session_bars == s.session_bars
            &&& t.cfg == s.cfg
        }),
{
}

proof fn lemma_ratcheted_step(s: StrategyView, b: Bar)
    requires
        ratcheted(s),
        s.wf(),
    ensures
        ratcheted(s.step(b).0),
{
    if b.ts > s.last_bar_ts && engine::trading_day(b.ts as int) {
        let s0 = s.taken(b);
        assert(s0.wf());
        lemma_open_in_session(s0, b);
        let s1 = s0.in_session(b).0;
        let s2 = StrategyView { session_bars: s1.session_bars.push(b), eos_done: false, ..s1 };
        let from = if s2.pos is Some {
            s
        } else {
            StrategyView { pos: None, ..s }
        };
        lemma_ratcheted_managed(from, s2, b);
        lemma_ratcheted_checked(s2.managed_if_open(b).0, b);
        assert(s.step(b).0 == s2.managed_if_open(b).0.checked(b).0) by {
            reveal(StrategyView::session_step);
        }
    }
}

proof fn lemma_ratcheted(cfg: CfgView, bars: Seq<Bar>)
    ensures
        ratcheted(StrategyView::fresh(cfg).steps(bars).0),
        StrategyView::fresh(cfg).steps(bars).0.cfg == cfg,
    decreases bars.len(),
{
    let f = StrategyView::fresh(cfg);
    if bars.len() == 0 {
        assert(bars =~= seq![]);
        engine::lemma_no_bars(f);
    } else {
        lemma_ratcheted(cfg, bars.drop_last());
        engine::lemma_one_more_bar(f, bars);
        laws::lemma_reachable(cfg, bars.drop_last());
        let s = f.steps(bars.drop_last()).0;
        lemma_ratcheted_step(s, bars.last());
        laws::lemma_same_cfg(s, bars.last());
    }
}

/// Whatever bars the engine was fed, the stop of its open position is the first
/// one, or the one of the largest rung that the best price has reached over the
/// entry and all bars that the position was managed over. Those are the last
/// bars of the session, as many as it was held.
pub proof fn law_open_stop_is_of_the_best_rung(cfg: CfgView, bars: Seq<Bar>)
    requires
        cfg.trail_on,
        StrategyView::fresh(cfg).steps(bars).0.pos matches Some(p) && priced(p),
    ensures
        ({
            let s = StrategyView::fresh(cfg).steps(bars).0;
            let p = s.pos->0;
            &&& 0 <= p.bars_held <= s.session_bars.len()
            &&& p.runx == best_price(p.side, p.entry, managed_bars(s))
            &&& locked_a_rung(p, cfg.ladder)
            &&& p.bars_held > 0 ==> locked_the_best(p, cfg.ladder)
            &&& p.sl == due_stop(p)
        }),
{
    lemma_ratcheted(cfg, bars);
    let s = StrategyView::fresh(cfg).steps(bars).0;
    law_stop_is_of_the_best_rung(as_entered(s.pos->0), cfg, managed_bars(s));
}

/// What a bar tells of the position `p` where its exits see it as `q`: first
/// that the stop was drawn along, where a larger rung is locked in now, and then
/// the close, where the bar takes the stop or else the target.
pub open spec fn bar_tells(p: PosView, q: PosView, b: Bar, touch: bool) -> Seq<EventView> {
    let trail = if p.trail_a.below(q.trail_a) {
        seq![EventView::Trail { ts: b.ts as int, a: q.trail_a, sl: q.sl }]
    } else {
        seq![]
    };
    if q.stopped(b, touch) {
        trail.push(EventView::Close(q.closed("SL"@, q.sl, b.ts)))
    } else if q.targeted(b, touch) {
        trail.push(EventView::Close(q.closed("TP"@, q.tp, b.ts)))
    } else {
        trail
    }
}

/// One call of the managing step: where the bars `before` have made the position
/// of its entry, the exits of the bar `b` see it managed over that bar too. The
/// best price, the rung and the stop are those with the bar included. That the
/// stop was drawn along is told first, exactly where a larger rung is locked in;
/// at most one close follows, which tells the first stop and the rung. A
/// position that stays open is again what the bars so far have made of its
/// entry, so that the law holds of the next call.
#[verifier::spinoff_prover]
pub proof fn law_managing_sees_the_best_rung(s: StrategyView, b: Bar, before: Seq<Bar>)
    requires
        s.cfg.trail_on,
        s.pos matches Some(p) && {
            &&& priced(p)
            &&& entry_levels(p)
            &&& p.bars_held < i64::MAX
            &&& p == after_bars(as_entered(p), s.cfg, before)
        },
    ensures
        ({
            let p = s.pos->0;
            let q = after_bars(as_entered(p), s.cfg, before.push(b));
            &&& same_position(p, q)
            &&& q.runx == best_price(p.side, p.entry, before.push(b))
            &&& locked_a_rung(q, s.cfg.ladder)
            &&& locked_the_best(q, s.cfg.ladder)
            &&& q.sl == due_stop(q)
            &&& s.managed(b).1 == bar_tells(p, q, b, s.cfg.sl_touch)
            &&& s.managed(b).0.pos == if q.stopped(b, s.cfg.sl_touch) || q.targeted(
                b,
                s.cfg.sl_touch,
            ) {
                None
            } else {
                Some(q)
            }
            &&& forall|kind: Seq<char>, fill: Double|
                #![trigger q.closed(kind, fill, b.ts)]
                q.closed(kind, fill, b.ts).sl == p.sl0 && q.closed(kind, fill, b.ts).trail_a
                    == q.trail_a
        }),
{
    let p = s.pos->0;
    let all = before.push(b);
    let q = after_bars(as_entered(p), s.cfg, all);
    law_stop_is_of_the_best_rung(as_entered(p), s.cfg, all);
    law_stop_is_of_the_best_rung(as_entered(p), s.cfg, before);
    assert(all.drop_last() =~= before);
    assert(q == after_bar(p, s.cfg, b));
    double::lemma_positive(p.trail_a);
    lemma_earned(p.run(b), s.cfg.ladder, s.cfg.ladder.len());
    assert(s.managed(b).1 =~= bar_tells(p, q, b, s.cfg.sl_touch));
}

/// The exits of the next bar of the session see the position managed over that
/// bar too: the best price, the rung and the stop are those with the bar
/// included. That the stop was drawn along is told first, exactly where a larger
/// rung is locked in; at most one close follows, which tells the first stop and
/// the rung.
pub proof fn law_exits_see_the_best_rung(cfg: CfgView, bars: Seq<Bar>, b: Bar)
    requires
        cfg.trail_on,
        ({
            let s = StrategyView::fresh(cfg).steps(bars).0;
            &&& s.pos matches Some(p) && priced(p)
            &&& b.ts > s.last_bar_ts
            &&& engine::trading_day(b.ts as int)
            &&& s.active_sd == Some(engine::date_key(b.ts as int))
        }),
    ensures
        ({
            let s = StrategyView::fresh(cfg).steps(bars).0;
            let p = s.pos->0;
            let all = managed_bars(s).push(b);
            let q = after_bars(as_entered(p), cfg, all);
            &&& same_position(p, q)
            &&& q.runx == best_price(p.side, p.entry, all)
            &&& locked_a_rung(q, cfg.ladder)
            &&& locked_the_best(q, cfg.ladder)
            &&& q.sl == due_stop(q)
            &&& s.step(b).1 == bar_tells(p, q, b, cfg.sl_touch)
            &&& s.step(b).0.pos matches Some(r) ==> r == q
            &&& forall|kind: Seq<char>, fill: Double|
                #![trigger q.closed(kind, fill, b.ts)]
                q.closed(kind, fill, b.ts).sl == p.sl0 && q.closed(kind, fill, b.ts).trail_a
                    == q.trail_a
        }),
{
    lemma_ratcheted(cfg, bars);
    laws::lemma_reachable(cfg, bars);
    let s = StrategyView::fresh(cfg).steps(bars).0;
    let before = managed_bars(s);
    let s0 = s.taken(b);
    let s2 = StrategyView { session_bars: s0.session_bars.push(b), eos_done: false, ..s0 };
    law_managing_sees_the_best_rung(s2, b, before);
    lemma_same_session_step(s, b);
}

/// A bar of the session of an open position does nothing but manage it.
proof fn lemma_same_session_step(s: StrategyView, b: Bar)
    requires
        s.wf(),
        s.pos is Some,
        b.ts > s.last_bar_ts,
        engine::trading_day(b.ts as int),
        s.active_sd == Some(engine::date_key(b.ts as int)),
    ensures
        ({
            let s0 = s.taken(b);
            let s2 = StrategyView { session_bars: s0.session_bars.push(b), eos_done: false, ..s0 };
            s.step(b) == s2.managed(b)
        }),
{
    reveal(StrategyView::session_step);
    let s0 = s.taken(b);
    let s2 = StrategyView { session_bars: s0.session_bars.push(b), eos_done: false, ..s0 };
    assert(s0.in_session(b) == (s0, Seq::<EventView>::empty()));
    let s3 = s2.managed(b).0;
    engine::lemma_managed(s2, b);
    assert(s3.trigger(b) is None);
    assert(s.step(b).1 =~= s2.managed(b).1);
}

} // verus!
