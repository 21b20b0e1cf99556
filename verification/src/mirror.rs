//! What reaches the exchange: which orders a trade leads to, and what the
//! requests say that carry them.

use crate::broker;
use crate::broker::{BrokerView, MirrorState, NoteView};
use crate::config::ConfigView;
use crate::decimal;
use crate::double::Double;
use crate::engine::{EventView, TradeView};
use crate::errand::WorkView;
use crate::json::JsonView;
use crate::orders;
use crate::orders::{CallView, CliView, Order, Side};
use crate::service::DeskView;
use crate::text;
use vstd::prelude::*;
use vstd::utf8::*;

verus! {

// ---------------------------------------------------------------------------
// Orders
// ---------------------------------------------------------------------------

/// A long trade is entered by buying and a short one by selling, at the entry
/// price, with the ledger's quantity rounded to the digits that the market takes.
/// An entry that is worth less than the market takes is not ordered.
pub proof fn law_long_buys_and_short_sells(b: BrokerView, cli: CliView, entry: Double, slp: Double)
    requires
        b.cfg.may_order(),
        b.cli == Some(cli),
    ensures
        ({
            let step = Double::power_of_ten(cli.qty_prec as nat);
            let qty = b.ledger.sized(entry, slp).qty.product(step).to_whole().quotient(step);
            if qty.product(entry).below(cli.min_notional) {
                &&& b.entry_order(1, entry, slp) is None
                &&& b.entry_order((-1) as i8, entry, slp) is None
                &&& b.entry_note(1, entry, slp) == Some(
                    NoteView::EntrySkipped { qty, entry, min_notional: cli.min_notional },
                )
            } else {
                &&& b.entry_order(1, entry, slp) == Some(
                    Order::Limit { side: Side::Buy, qty, price: entry },
                )
                &&& b.entry_order((-1) as i8, entry, slp) == Some(
                    Order::Limit { side: Side::Sell, qty, price: entry },
                )
                &&& b.entry_note(1, entry, slp) is None
            }
        }),
{
}

/// Stop and target of a long trade sell and those of a short one buy, with the
/// quantity of the position, the stop at its stop and the target at its target,
/// after all orders before were taken back.
pub proof fn law_protection_is_on_the_other_side(b: BrokerView, m: MirrorState)
    requires
        b.cfg.may_order(),
        b.cli is Some,
        b.mirror == Some(m),
    ensures
        m.side == 1 ==> b.arm_orders() == seq![
            Order::CancelAll,
            Order::Stop { side: Side::Sell, qty: m.qty, stop: m.sl },
            Order::Target { side: Side::Sell, qty: m.qty, price: m.tp },
        ],
        m.side == -1 ==> b.arm_orders() == seq![
            Order::CancelAll,
            Order::Stop { side: Side::Buy, qty: m.qty, stop: m.sl },
            Order::Target { side: Side::Buy, qty: m.qty, price: m.tp },
        ],
{
}

/// From the trade to its orders: what a position is entered with is what its stop
/// and target take back, on the other side, at the prices that the trade has.
pub proof fn law_position_is_mirrored(
    b: BrokerView,
    cli: CliView,
    side: i8,
    entry: Double,
    sl: Double,
    tp: Double,
    slp: Double,
    moved: Double,
)
    requires
        side == 1 || side == -1,
        b.cfg.may_order(),
        b.cli == Some(cli),
        b.entry_order(side, entry, slp) is Some,
    ensures
        ({
            let (way_in, way_out) = if side == 1 {
                (Side::Buy, Side::Sell)
            } else {
                (Side::Sell, Side::Buy)
            };
            let o = b.opened(side, entry, sl, tp, slp);
            &&& b.entry_order(side, entry, slp) matches Some(Order::Limit { side: w, qty, price })
            &&& w == way_in
            &&& price == entry
            &&& o.arm_orders() == seq![
                Order::CancelAll,
                Order::Stop { side: way_out, qty, stop: sl },
                Order::Target { side: way_out, qty, price: tp },
            ]
            &&& o.trailed(moved).arm_orders() == seq![
                Order::CancelAll,
                Order::Stop { side: way_out, qty, stop: moved },
                Order::Target { side: way_out, qty, price: tp },
            ]
            &&& o.mirror == Some(MirrorState { side, qty, sl, tp, armed: false })
            &&& o.sizing == Some(b.ledger.sized(entry, slp))
            &&& o.ledger == b.ledger.opened(entry, slp)
        }),
{
}

/// What puts stop and target in place, or does not, changes nothing but whether
/// the position counts as protected; a moved stop changes nothing but the stop.
pub proof fn law_what_arming_and_trailing_change(b: BrokerView, m: MirrorState, sl: Double)
    requires
        b.mirror == Some(m),
    ensures
        b.armed(true) == (BrokerView {
            mirror: Some(
                MirrorState { side: m.side, qty: m.qty, sl: m.sl, tp: m.tp, armed: true },
            ),
            ..b
        }),
        b.armed(false) == (BrokerView {
            mirror: Some(
                MirrorState { side: m.side, qty: m.qty, sl: m.sl, tp: m.tp, armed: false },
            ),
            ..b
        }),
        b.trailed(sl) == (BrokerView {
            mirror: Some(MirrorState { side: m.side, qty: m.qty, sl, tp: m.tp, armed: m.armed }),
            ..b
        }),
{
}

/// A closed trade is booked in the ledger at its exit, and the log tells what it
/// left: the net gain and the fees to a millionth, the equity to a cent.
pub proof fn law_close_is_booked_and_told(b: BrokerView, t: TradeView)
    ensures
        b.closed(t).ledger == b.ledger.closed(t, t.exit_ts),
        b.closed(t).mirror is None,
        b.closed(t).sizing is None,
        b.closed(t).cfg == b.cfg,
        b.closed(t).cli == b.cli,
        b.closed(t).status == b.status,
        b.close_note(t) == (NoteView::Closed {
            exit_type: t.exit_type,
            exit: t.exit,
            net: crate::sizes::millionths(b.ledger.outcome(t).pnl_usd),
            fees: crate::sizes::millionths(b.ledger.outcome(t).fee_usd),
            equity: b.ledger.closed(t, t.exit_ts).equity.product(
                Double::whole(100),
            ).to_whole().quotient(Double::whole(100)),
        }),
{
}

/// The broker of a configuration starts with its fees, its sizing and its paper
/// money, each from its own setting.
pub proof fn law_broker_of_a_configuration(c: ConfigView, now: i64)
    ensures
        ({
            let b = BrokerView::fresh(c, now);
            let l = b.ledger;
            &&& l.equity == c.paper_start_usdt && l.start == c.paper_start_usdt
            &&& l.fee.maker_pct == c.fee_maker_pct
            &&& l.fee.taker_pct == c.fee_taker_pct
            &&& l.fee.slip_pct == c.sl_slip_pct
            &&& l.sizing.legacy == c.legacy_sizing
            &&& l.sizing.position_usd == c.position_usd
            &&& l.sizing.risk_pct == c.risk_pct
            &&& l.sizing.leverage_cap == c.leverage_cap
            &&& b.cfg == c
            &&& b.cli is None && b.mirror is None && b.sizing is None
            &&& b.status.len() == 0
        }),
{
}

/// Orders go to the futures exchange exactly where the venue is `futures`, and
/// are sent only where they may be and there is a client.
pub proof fn law_where_orders_go(b: BrokerView)
    ensures
        b.futures() == (b.cfg.venue == "futures"@),
        b.trades() == (b.cfg.may_order() && b.cli is Some),
{
}

/// An entry of the log: its time in seconds, and what it says.
pub proof fn law_log_entry(msg: Seq<char>, ms: int)
    ensures
        broker::log_fields(msg, ms) == seq![
            ("ts"@, JsonView::Number(Double::whole(ms).quotient(Double::whole(1000)))),
            ("msg"@, JsonView::Text(msg)),
        ],
{
}

/// What the log says of an entry, an exit and a protection.
pub proof fn law_notes_in_words(
    id: Seq<char>,
    side: i8,
    qty: Double,
    entry: Double,
    notional: Double,
    risk: Double,
    e: Seq<char>,
    a: Seq<char>,
    b: Seq<char>,
    c: Seq<char>,
)
    requires
        side == 1 || side == -1,
    ensures
        ({
            let name = if side == 1 {
                "long"@
            } else {
                "short"@
            };
            let told = name + " qty "@ + a + " @ "@ + decimal::fixed_text(entry, 2) + " (notional "@
                + decimal::fixed_text(notional, 0) + " USDT, risk "@ + decimal::fixed_text(risk, 2)
                + " USDT)"@;
            &&& (NoteView::EntrySent { id, side, qty, entry, notional, risk }).text(seq![a])
                == "entry order "@ + id + " "@ + told
            &&& (NoteView::DryEntry { side, qty, entry, notional, risk }).text(seq![a])
                == "(dry) entry "@ + told
            &&& (NoteView::EntrySkipped { qty, entry, min_notional: risk }).text(seq![a, b])
                == "entry skipped: qty "@ + a + " x "@ + decimal::fixed_text(entry, 2)
                + " below venue min notional "@ + b
            &&& (NoteView::EntrySkipped { qty, entry, min_notional: risk }).numbers() == seq![
                qty,
                risk,
            ]
            &&& NoteView::EntryFailed(e).text(seq![]) == "entry order failed: "@ + e
            &&& (NoteView::Armed { sl: qty, tp: entry }).text(seq![a, b])
                == "protection armed: SL "@ + a + " TP "@ + b
            &&& (NoteView::Armed { sl: qty, tp: entry }).numbers() == seq![qty, entry]
            &&& NoteView::ArmFailed(e).text(seq![]) == "arm failed: "@ + e
            &&& NoteView::DryTrail(entry).text(seq![]) == "(dry) trail -> SL "@
                + decimal::fixed_text(entry, 2)
            &&& (NoteView::Closed { exit_type: e, exit: entry, net: qty, fees: risk, equity: notional
            }).text(seq![a, b, c]) == "closed "@ + e + " @ "@ + decimal::fixed_text(entry, 2)
                + " net "@ + a + " USDT (fees "@ + b + ") equity "@ + c
            &&& (NoteView::Closed { exit_type: e, exit: entry, net: qty, fees: risk, equity: notional
            }).numbers() == seq![qty, risk, notional]
            &&& NoteView::CancelFailed(e).text(seq![]) == "cancel on close failed: "@ + e
            &&& NoteView::LeverageSet(e).text(seq![]) == "leverage set to 1x on "@ + e
            &&& NoteView::LeverageFailed(e).text(seq![]) == "leverage set failed: "@ + e
        }),
{
}

// ---------------------------------------------------------------------------
// Requests
// ---------------------------------------------------------------------------

/// What a request says that sends these parameters, signed: they come first, then
/// the time and how long it may take to arrive, and then the signature of all of
/// that under the secret.
pub open spec fn sends(
    c: CliView,
    call: CallView,
    method: Seq<char>,
    path: Seq<char>,
    params: Seq<(Seq<char>, Seq<char>)>,
    stamp: nat,
) -> bool {
    let all = params.push(("timestamp"@, text::decimal(stamp))).push(("recvWindow"@, "5000"@));
    let qs = orders::query(all);
    &&& call.method == method
    &&& call.url == c.base + path
    &&& call.body == Some(
        qs + "&signature="@ + orders::hex(
            orders::hmac_sha256(encode_utf8(c.secret), encode_utf8(qs)),
        ),
    )
}

/// What a limit order says: the side in capitals, good till cancelled, the
/// quantity with the market's digits and the price with two.
pub proof fn law_limit_order_request(
    c: CliView,
    futures: bool,
    symbol: Seq<char>,
    side: Side,
    qty: Double,
    price: Double,
    stamp: nat,
)
    ensures
        c.order_call(futures, symbol, Order::Limit { side, qty, price }, stamp) matches Some(call)
            ==> sends(
            c,
            call,
            "POST"@,
            if futures {
                "/fapi/v1/order"@
            } else {
                "/api/v3/order"@
            },
            seq![
                ("symbol"@, symbol),
                (
                    "side"@,
                    if side == Side::Buy {
                        "BUY"@
                    } else {
                        "SELL"@
                    },
                ),
                ("type"@, "LIMIT"@),
                ("timeInForce"@, "GTC"@),
                ("quantity"@, decimal::fixed_text(qty, c.qty_prec as nat)),
                ("price"@, decimal::fixed_text(price, 2)),
            ],
            stamp,
        ),
{
}

/// What a stop says: on futures a market order that only reduces the position
/// once the stop is reached; on spot a limit order at the stop once it is
/// reached.
pub proof fn law_stop_order_request(
    c: CliView,
    symbol: Seq<char>,
    side: Side,
    qty: Double,
    stop: Double,
    stamp: nat,
)
    ensures
        ({
            let way = if side == Side::Buy {
                "BUY"@
            } else {
                "SELL"@
            };
            let shown = decimal::fixed_text(qty, c.qty_prec as nat);
            let o = Order::Stop { side, qty, stop };
            &&& c.order_call(true, symbol, o, stamp) matches Some(call) ==> sends(
                c,
                call,
                "POST"@,
                "/fapi/v1/order"@,
                seq![
                    ("symbol"@, symbol),
                    ("side"@, way),
                    ("type"@, "STOP_MARKET"@),
                    ("reduceOnly"@, "true"@),
                    ("quantity"@, shown),
                    ("stopPrice"@, decimal::fixed_text(stop, 2)),
                ],
                stamp,
            )
            &&& c.order_call(false, symbol, o, stamp) matches Some(call) ==> sends(
                c,
                call,
                "POST"@,
                "/api/v3/order"@,
                seq![
                    ("symbol"@, symbol),
                    ("side"@, way),
                    ("type"@, "STOP_LOSS_LIMIT"@),
                    ("timeInForce"@, "GTC"@),
                    ("quantity"@, shown),
                    ("stopPrice"@, decimal::fixed_text(stop, 2)),
                    ("price"@, decimal::fixed_text(stop, 2)),
                ],
                stamp,
            )
        }),
{
}

/// What a target says: on futures a market order that only reduces the position
/// once the target is reached; on spot a limit order at the target.
pub proof fn law_target_order_request(
    c: CliView,
    symbol: Seq<char>,
    side: Side,
    qty: Double,
    price: Double,
    stamp: nat,
)
    ensures
        ({
            let way = if side == Side::Buy {
                "BUY"@
            } else {
                "SELL"@
            };
            let shown = decimal::fixed_text(qty, c.qty_prec as nat);
            let o = Order::Target { side, qty, price };
            &&& c.order_call(true, symbol, o, stamp) matches Some(call) ==> sends(
                c,
                call,
                "POST"@,
                "/fapi/v1/order"@,
                seq![
                    ("symbol"@, symbol),
                    ("side"@, way),
                    ("type"@, "TAKE_PROFIT_MARKET"@),
                    ("reduceOnly"@, "true"@),
                    ("quantity"@, shown),
                    ("stopPrice"@, decimal::fixed_text(price, 2)),
                ],
                stamp,
            )
            &&& c.order_call(false, symbol, o, stamp) matches Some(call) ==> sends(
                c,
                call,
                "POST"@,
                "/api/v3/order"@,
                seq![
                    ("symbol"@, symbol),
                    ("side"@, way),
                    ("type"@, "LIMIT"@),
                    ("timeInForce"@, "GTC"@),
                    ("quantity"@, shown),
                    ("price"@, decimal::fixed_text(price, 2)),
                ],
                stamp,
            )
        }),
{
}

/// What takes back all orders, and what sets the leverage.
pub proof fn law_other_requests(c: CliView, symbol: Seq<char>, n: u32, stamp: nat)
    ensures
        c.order_call(true, symbol, Order::CancelAll, stamp) matches Some(call) ==> sends(
            c,
            call,
            "DELETE"@,
            "/fapi/v1/allOpenOrders"@,
            seq![("symbol"@, symbol)],
            stamp,
        ),
        c.order_call(false, symbol, Order::CancelAll, stamp) matches Some(call) ==> sends(
            c,
            call,
            "DELETE"@,
            "/api/v3/openOrders"@,
            seq![("symbol"@, symbol)],
            stamp,
        ),
        c.order_call(true, symbol, Order::Leverage(n), stamp) matches Some(call) ==> sends(
            c,
            call,
            "POST"@,
            "/fapi/v1/leverage"@,
            seq![("symbol"@, symbol), ("leverage"@, text::decimal(n as nat))],
            stamp,
        ),
{
}

/// Every order makes a request, unless it is too long to be signed.
pub proof fn law_orders_make_requests(
    c: CliView,
    futures: bool,
    symbol: Seq<char>,
    o: Order,
    stamp: nat,
)
    requires
        encode_utf8(c.secret).len() < crate::ws::DIGEST_LIMIT,
    ensures
        c.order_call(futures, symbol, o, stamp) is None ==> exists|params: Seq<
            (Seq<char>, Seq<char>),
        >|
            encode_utf8(#[trigger] c.signed_query(params, stamp)).len() + 64
                >= crate::ws::DIGEST_LIMIT,
{
}

/// A client knows nothing of the market but what is usual: quantities have three
/// digits on futures and six on spot, and are worth five at least.
pub proof fn law_fresh_client(key: Seq<char>, secret: Seq<char>, base: Seq<char>)
    ensures
        CliView::fresh(key, secret, base, true) == (CliView {
            key,
            secret,
            base,
            qty_prec: 3,
            min_notional: Double::whole(5),
        }),
        CliView::fresh(key, secret, base, false) == (CliView {
            key,
            secret,
            base,
            qty_prec: 6,
            min_notional: Double::whole(5),
        }),
{
}

/// What the exchange tells of the market is taken from the market's own entry:
/// the digits of a quantity, and the least notional of its last filter of that
/// kind.
pub proof fn law_market_is_learned(
    c: CliView,
    list: Seq<JsonView>,
    info: JsonView,
    symbol: Seq<char>,
    i: int,
    digits: int,
    filters: Seq<JsonView>,
    least: Double,
)
    requires
        info.field("symbols"@) == Some(JsonView::List(list)),
        0 <= i < list.len(),
        list[i].field("symbol"@) matches Some(v) && v.text() == Some(symbol),
        forall|k: int|
            0 <= k < i ==> !(#[trigger] list[k].field("symbol"@) matches Some(v) && v.text() == Some(
                symbol,
            )),
        list[i].field("quantityPrecision"@) matches Some(v) && v.whole() == Some(digits),
        0 <= digits <= 18,
        list[i].field("filters"@) == Some(JsonView::List(filters)),
        filters.len() > 0,
        filters.last().field("filterType"@) matches Some(v) && v.text() == Some("MIN_NOTIONAL"@),
        filters.last().field("notional"@) matches Some(v) && v.number() == Some(least),
    ensures
        c.informed(info, symbol).qty_prec == digits,
        c.informed(info, symbol).min_notional == least,
        c.informed(info, symbol).key == c.key,
        c.informed(info, symbol).secret == c.secret,
        c.informed(info, symbol).base == c.base,
{
    lemma_market_from(list, symbol, 0, i);
}

proof fn lemma_market_from(list: Seq<JsonView>, symbol: Seq<char>, from: int, i: int)
    requires
        0 <= from <= i < list.len(),
        list[i].field("symbol"@) matches Some(v) && v.text() == Some(symbol),
        forall|k: int|
            0 <= k < i ==> !(#[trigger] list[k].field("symbol"@) matches Some(v) && v.text() == Some(
                symbol,
            )),
    ensures
        orders::market_from(list, symbol, from) == Some(list[i]),
    decreases i - from,
{
    if from < i {
        lemma_market_from(list, symbol, from + 1, i);
    }
}

/// What the log tells of an entry order is what was ordered, with the number that
/// the exchange gave it; of the orders for stop and target it tells their prices.
/// What failed is told as it was said.
pub proof fn law_notes_of_orders(
    b: BrokerView,
    m: MirrorState,
    s: crate::ledger::Sizing,
    entry: Double,
    said: Seq<char>,
)
    requires
        b.mirror == Some(m),
        b.sizing == Some(s),
    ensures
        b.entry_told(Ok::<Seq<char>, Seq<char>>(said), entry) == Some(
            NoteView::EntrySent {
                id: said,
                side: m.side,
                qty: m.qty,
                entry,
                notional: s.notional_usd,
                risk: s.risk_usd,
            },
        ),
        b.entry_told(Err::<Seq<char>, Seq<char>>(said), entry) == Some(NoteView::EntryFailed(said)),
        b.arming_told(None) == Some(NoteView::Armed { sl: m.sl, tp: m.tp }),
        b.arming_told(Some(said)) == Some(NoteView::ArmFailed(said)),
{
}

/// What events ask for. An entry is ordered, or noted where it is not; a stop that
/// was drawn along puts the orders in place anew, at the new stop; a close takes
/// all orders back. Where orders are not sent, the log tells of it instead.
pub proof fn law_what_events_ask_for(d: DeskView, ev: EventView, m: MirrorState)
    requires
        d.broker.mirror == Some(m),
        m.side == 1 || m.side == -1,
    ensures
        ({
            let way_out = if m.side == 1 {
                Side::Sell
            } else {
                Side::Buy
            };
            &&& ev is Session ==> d.work_of(ev) is Nothing
            &&& ev is Open ==> d.work_of(ev) == (WorkView::Enter {
                order: d.broker.entry_order(ev->side, ev->entry, ev->slp),
                note: d.broker.entry_note(ev->side, ev->entry, ev->slp),
                entry: ev->entry,
            })
            &&& ev is Trail && d.broker.trades() ==> d.work_of(ev) == (WorkView::Protect {
                orders: seq![
                    Order::CancelAll,
                    Order::Stop { side: way_out, qty: m.qty, stop: ev->Trail_sl },
                    Order::Target { side: way_out, qty: m.qty, price: m.tp },
                ],
                note: None,
            })
            &&& ev is Trail && !d.broker.trades() ==> d.work_of(ev) == (WorkView::Protect {
                orders: seq![],
                note: Some(NoteView::DryTrail(ev->Trail_sl)),
            })
            &&& ev matches EventView::Close(t) ==> d.work_of(ev) == (WorkView::Leave {
                order: if d.broker.trades() {
                    Some(Order::CancelAll)
                } else {
                    None
                },
                closed: d.broker.close_note(t),
            })
        }),
{
    if ev is Trail {
        assert(d.broker.trailed(ev->Trail_sl).trades() == d.broker.trades());
    }
}

/// A dry run tells of an entry what would have been ordered.
pub proof fn law_dry_entry_is_told(b: BrokerView, side: i8, entry: Double, slp: Double)
    requires
        !b.trades(),
        b.cli is None,
    ensures
        ({
            let s = b.ledger.sized(entry, slp);
            let step = Double::power_of_ten(3);
            b.entry_note(side, entry, slp) == Some(
                NoteView::DryEntry {
                    side,
                    qty: s.qty.product(step).to_whole().quotient(step),
                    entry,
                    notional: s.notional_usd,
                    risk: s.risk_usd,
                },
            )
        }),
{
}

/// On futures the leverage is set to one with a new client; on the spot market
/// nothing is ordered then. The log tells of the market, or of what failed.
pub proof fn law_leverage_is_set(b: BrokerView, e: Seq<char>)
    ensures
        b.cfg.venue == "futures"@ ==> b.first_order() == Some(Order::Leverage(1)),
        b.cfg.venue != "futures"@ ==> b.first_order() is None,
        b.leverage_told(None) == NoteView::LeverageSet(b.cfg.symbol),
        b.leverage_told(Some(e)) == NoteView::LeverageFailed(e),
{
}

/// The log grows at its end up to two hundred entries; one more leaves the newest
/// hundred and fifty.
pub proof fn law_log_is_cut(b: BrokerView, msg: Seq<char>, ms: int)
    requires
        b.status.len() <= 200,
    ensures
        ({
            let all = b.status.push(JsonView::Object(broker::log_fields(msg, ms)));
            &&& b.status.len() < 200 ==> b.logged(msg, ms).status == all
            &&& b.status.len() == 200 ==> b.logged(msg, ms).status == all.skip(51)
            &&& b.logged(msg, ms).ledger == b.ledger
            &&& b.logged(msg, ms).mirror == b.mirror
        }),
{
}

} // verus!
