//! What a replay reports, and how often the service looks around.

use crate::decimal;
use crate::double::Double;
use crate::engine;
use crate::engine::TradeView;
use crate::http;
use crate::json::JsonView;
use crate::profile::Bar;
use crate::replay;
use crate::replay::Summary;
use crate::service;
use crate::text;
use vstd::prelude::*;

verus! {

/// A replay trades with twice the risk as the reward and the usual ladder, at all
/// hours, with exits on the entry bar; how stops and targets fill is asked for.
pub proof fn law_replay_settings(touch: bool)
    ensures
        ({
            let c = replay::replay_settings(touch);
            &&& c.rr == Double::whole(2)
            &&& !c.skip_hour0
            &&& c.trail_on
            &&& c.same_bar_exits
            &&& c.sl_touch == touch
            &&& c.ladder == seq![
                (Double::ratio(6, 10), Double::ratio(1, 10)),
                (Double::ratio(75, 100), Double::ratio(4, 10)),
                (Double::ratio(9, 10), Double::ratio(7, 10)),
            ]
        }),
{
}

/// The usual ladder: at six tenths of the way a tenth of the risk is kept, at
/// three quarters four tenths, at nine tenths seven tenths.
pub proof fn law_usual_rungs()
    ensures
        engine::default_rungs() == seq![
            (Double::ratio(6, 10), Double::ratio(1, 10)),
            (Double::ratio(75, 100), Double::ratio(4, 10)),
            (Double::ratio(9, 10), Double::ratio(7, 10)),
        ],
{
}

/// A trade more counts under its own way out, and among those that won where it
/// gained something.
pub proof fn law_trades_are_counted(t: Seq<TradeView>, x: TradeView, kind: Seq<char>)
    ensures
        replay::ended(seq![], kind) == 0,
        replay::won(seq![]) == 0,
        replay::ended(t.push(x), kind) == replay::ended(t, kind) + if x.exit_type == kind {
            1nat
        } else {
            0
        },
        replay::won(t.push(x)) == replay::won(t) + if (Double { bits: 0 }).below(x.pct) {
            1nat
        } else {
            0
        },
{
    assert(t.push(x).drop_last() =~= t);
}

/// What is reported: how many trades, how many of a hundred won, what all of them
/// gained, and how they ended.
pub proof fn law_report(s: Summary, net: Double)
    ensures
        ({
            let n = if s.trades == 0 {
                1
            } else {
                s.trades as int
            };
            let rate = Double::whole(100).product(Double::whole(s.wins as int)).quotient(
                Double::whole(n),
            );
            let sign = if net.nan() || net.negative() {
                Seq::<char>::empty()
            } else {
                "+"@
            };
            &&& s.lines(net).len() == 4
            &&& s.lines(net)[0] == "trades      : "@ + text::decimal(s.trades as nat)
            &&& s.lines(net)[1] == "win rate    : "@ + decimal::fixed_text(rate, 1) + "%"@
            &&& s.lines(net)[2] == "net         : "@ + (sign + decimal::fixed_text(net, 2)) + "%"@
            &&& s.lines(net)[3] == "exit mix    : SL "@ + text::decimal(s.sl as nat) + " / TP "@
                + text::decimal(s.tp as nat) + " / EOS "@ + text::decimal(s.eos as nat)
        }),
{
    let none = Seq::<char>::empty();
    assert(none + decimal::fixed_text(net, 2) =~= decimal::fixed_text(net, 2));
}

/// The service asks for bars as often as it is told to, but not more than twice a
/// second and not less than every ten; for the price not more than four times a
/// second and not less than every ten.
pub proof fn law_pauses(asked: Double)
    requires
        !asked.nan(),
    ensures
        ({
            let half = Double::ratio(1, 2);
            let quarter = Double::ratio(1, 4);
            let ten = Double::whole(10);
            &&& half.at_most(asked) && asked.at_most(ten) ==> service::poll_pause(asked) == asked
            &&& asked.below(half) ==> service::poll_pause(asked) == half
            &&& ten.below(asked) && half.at_most(asked) ==> service::poll_pause(asked) == ten
            &&& quarter.at_most(asked) && asked.at_most(ten) ==> service::tick_pause(asked) == asked
            &&& asked.below(quarter) ==> service::tick_pause(asked) == quarter
            &&& ten.below(asked) && quarter.at_most(asked) ==> service::tick_pause(asked) == ten
        }),
{
}

/// An event stream is kept open and not stored, and carries each message as data
/// with an empty line behind.
pub proof fn law_event_stream(msg: Seq<char>)
    ensures
        http::stream_head()
            == "HTTP/1.1 200 OK\r\nContent-Type: text/event-stream\r\nCache-Control: no-store\r\nConnection: keep-alive\r\n\r\n"@,
        http::stream_message(msg) == "data: "@ + msg + "\n\n"@,
{
}

/// A feed that starts without bars is tried again, and what went wrong is told.
pub proof fn law_start_of_the_feed(bars: Seq<Bar>, e: Seq<char>)
    ensures
        bars.len() > 0 ==> service::booted(Ok(bars)) == Ok::<_, Seq<char>>(bars),
        bars.len() == 0 ==> service::booted(Ok(bars)) == Err::<Seq<Bar>, Seq<char>>(
            "no closed bars"@,
        ),
        service::booted(Err(e)) == Err::<Seq<Bar>, Seq<char>>(e),
        service::starting_fields(e) == seq![
            ("status"@, JsonView::Text("bootstrapping"@)),
            ("error"@, JsonView::Text(e)),
        ],
{
}

/// A price is published with its time.
pub proof fn law_price_is_told(price: Double, ts: Double)
    ensures
        service::tick_fields(price, ts) == seq![
            ("price"@, JsonView::Number(price)),
            ("ts"@, JsonView::Number(ts)),
        ],
{
}

/// Of an answer that is no success its status is said and the first two hundred
/// characters of its body.
pub proof fn law_refusal_is_said(code: u16, body: Seq<char>, more: Seq<char>)
    requires
        body.len() <= 200,
    ensures
        crate::orders::refusal_text(code, body) == "HTTP "@ + text::decimal(code as nat) + ": "@
            + body,
        body.len() == 200 ==> crate::orders::refusal_text(code, body + more)
            == crate::orders::refusal_text(code, body),
{
    if body.len() == 200 {
        assert((body + more).take(200) =~= body);
        assert(body.take(200) =~= body);
    }
}

} // verus!
