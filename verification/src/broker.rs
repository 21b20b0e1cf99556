//! The broker: it books trades in the paper ledger and mirrors them as orders.
//!
//! The ledger is what counts; orders follow it. None is sent unless the
//! configuration allows it and there is a client to send it with. The functions
//! here say which orders are to be sent and take what came of them.

use crate::config::{Config, ConfigView};
use crate::decimal;
use crate::double::Double;
use crate::engine;
use crate::engine::{side_text, Trade, TradeView, LONG};
use crate::json::{put, put_item, text, Json, JsonView};
use crate::ledger;
use crate::ledger::{round_steps, FeeModel, Ledger, LedgerView, Outcome, Sizing, SizingCfg};
use crate::orders::{CliView, Order, RestCli, Side};
use crate::text::same;
use crate::words;
use vstd::prelude::*;
use vstd::string::*;

verus! {

/// Entries of the log above which it is cut.
pub const LOG_FULL: usize = 200;

/// Entries of the log that a cut leaves.
pub const LOG_KEPT: usize = 150;

/// Entries of the log that are shown.
pub const LOG_SHOWN: usize = 20;

/// The leverage that is set on futures.
pub const LEVERAGE: u32 = 1;

// ---------------------------------------------------------------------------
// Notes
// ---------------------------------------------------------------------------

/// Something that the log tells.
#[derive(Debug)]
pub enum Note {
    LeverageSet(String),
    LeverageFailed(String),
    EntrySkipped { qty: Double, entry: Double, min_notional: Double },
    EntrySent { id: String, side: i8, qty: Double, entry: Double, notional: Double, risk: Double },
    EntryFailed(String),
    DryEntry { side: i8, qty: Double, entry: Double, notional: Double, risk: Double },
    Armed { sl: Double, tp: Double },
    ArmFailed(String),
    DryTrail(Double),
    Closed { exit_type: String, exit: Double, net: Double, fees: Double, equity: Double },
    CancelFailed(String),
}

/// What a note says.
pub enum NoteView {
    LeverageSet(Seq<char>),
    LeverageFailed(Seq<char>),
    EntrySkipped { qty: Double, entry: Double, min_notional: Double },
    EntrySent {
        id: Seq<char>,
        side: i8,
        qty: Double,
        entry: Double,
        notional: Double,
        risk: Double,
    },
    EntryFailed(Seq<char>),
    DryEntry { side: i8, qty: Double, entry: Double, notional: Double, risk: Double },
    Armed { sl: Double, tp: Double },
    ArmFailed(Seq<char>),
    DryTrail(Double),
    Closed { exit_type: Seq<char>, exit: Double, net: Double, fees: Double, equity: Double },
    CancelFailed(Seq<char>),
}

impl View for Note {
    type V = NoteView;

    open spec fn view(&self) -> NoteView {
        match self {
            Note::LeverageSet(s) => NoteView::LeverageSet(s@),
            Note::LeverageFailed(e) => NoteView::LeverageFailed(e@),
            Note::EntrySkipped { qty, entry, min_notional } => NoteView::EntrySkipped {
                qty: *qty,
                entry: *entry,
                min_notional: *min_notional,
            },
            Note::EntrySent { id, side, qty, entry, notional, risk } => NoteView::EntrySent {
                id: id@,
                side: *side,
                qty: *qty,
                entry: *entry,
                notional: *notional,
                risk: *risk,
            },
            Note::EntryFailed(e) => NoteView::EntryFailed(e@),
            Note::DryEntry { side, qty, entry, notional, risk } => NoteView::DryEntry {
                side: *side,
                qty: *qty,
                entry: *entry,
                notional: *notional,
                risk: *risk,
            },
            Note::Armed { sl, tp } => NoteView::Armed { sl: *sl, tp: *tp },
            Note::ArmFailed(e) => NoteView::ArmFailed(e@),
            Note::DryTrail(sl) => NoteView::DryTrail(*sl),
            Note::Closed { exit_type, exit, net, fees, equity } => NoteView::Closed {
                exit_type: exit_type@,
                exit: *exit,
                net: *net,
                fees: *fees,
                equity: *equity,
            },
            Note::CancelFailed(e) => NoteView::CancelFailed(e@),
        }
    }
}

impl NoteView {
    /// The numbers of the note that are shown in full.
    pub open spec fn numbers(self) -> Seq<Double> {
        match self {
            NoteView::EntrySkipped { qty, min_notional, .. } => seq![qty, min_notional],
            NoteView::EntrySent { qty, .. } => seq![qty],
            NoteView::DryEntry { qty, .. } => seq![qty],
            NoteView::Armed { sl, tp } => seq![sl, tp],
            NoteView::Closed { net, fees, equity, .. } => seq![net, fees, equity],
            _ => seq![],
        }
    }

    /// The note as the log tells it, its numbers being shown as given.
    pub open spec fn text(self, shown: Seq<Seq<char>>) -> Seq<char> {
        match self {
            NoteView::LeverageSet(symbol) => "leverage set to 1x on "@ + symbol,
            NoteView::LeverageFailed(e) => "leverage set failed: "@ + e,
            NoteView::EntrySkipped { entry, .. } => "entry skipped: qty "@ + shown[0] + " x "@
                + decimal::fixed_text(entry, 2) + " below venue min notional "@ + shown[1],
            NoteView::EntrySent { id, side, entry, notional, risk, .. } => "entry order "@ + id
                + " "@ + entry_text(side, shown[0], entry, notional, risk),
            NoteView::EntryFailed(e) => "entry order failed: "@ + e,
            NoteView::DryEntry { side, entry, notional, risk, .. } => "(dry) entry "@ + entry_text(
                side,
                shown[0],
                entry,
                notional,
                risk,
            ),
            NoteView::Armed { .. } => "protection armed: SL "@ + shown[0] + " TP "@ + shown[1],
            NoteView::ArmFailed(e) => "arm failed: "@ + e,
            NoteView::DryTrail(sl) => "(dry) trail -> SL "@ + decimal::fixed_text(sl, 2),
            NoteView::Closed { exit_type, exit, .. } => "closed "@ + exit_type + " @ "@
                + decimal::fixed_text(exit, 2) + " net "@ + shown[0] + " USDT (fees "@ + shown[1]
                + ") equity "@ + shown[2],
            NoteView::CancelFailed(e) => "cancel on close failed: "@ + e,
        }
    }
}

/// An entry in words.
pub open spec fn entry_text(
    side: i8,
    qty: Seq<char>,
    entry: Double,
    notional: Double,
    risk: Double,
) -> Seq<char> {
    engine::side_name(side) + " qty "@ + qty + " @ "@ + decimal::fixed_text(entry, 2)
        + " (notional "@ + decimal::fixed_text(notional, 0) + " USDT, risk "@ + decimal::fixed_text(
        risk,
        2,
    ) + " USDT)"@
}

fn entry_words(side: i8, qty: &str, entry: Double, notional: Double, risk: Double) -> (r: String)
    ensures
        r@ == entry_text(side, qty@, entry, notional, risk),
{
    let mut out: String = side_text(side).to_owned();
    out.append(" qty ");
    out.append(qty);
    out.append(" @ ");
    out.append(entry.fixed(2).as_str());
    out.append(" (notional ");
    out.append(notional.fixed(0).as_str());
    out.append(" USDT, risk ");
    out.append(risk.fixed(2).as_str());
    out.append(" USDT)");
    out
}

fn two_parts(head: &str, tail: &str) -> (r: String)
    ensures
        r@ == head@ + tail@,
{
    head.to_owned().concat(tail)
}

impl Note {
    /// The numbers of the note that are shown in full.
    pub fn numbers(&self) -> (r: Vec<Double>)
        ensures
            r@ == self@.numbers(),
    {
        let mut out: Vec<Double> = Vec::new();
        match self {
            Note::EntrySkipped { qty, min_notional, .. } => {
                out.push(*qty);
                out.push(*min_notional);
            },
            Note::EntrySent { qty, .. } => {
                out.push(*qty);
            },
            Note::DryEntry { qty, .. } => {
                out.push(*qty);
            },
            Note::Armed { sl, tp } => {
                out.push(*sl);
                out.push(*tp);
            },
            Note::Closed { net, fees, equity, .. } => {
                out.push(*net);
                out.push(*fees);
                out.push(*equity);
            },
            _ => {},
        }
        assert(out@ =~= self@.numbers());
        out
    }

    /// The note as the log tells it, its numbers being shown as given.
    pub fn text(&self, shown: &Vec<String>) -> (r: String)
        requires
            shown@.len() == self@.numbers().len(),
        ensures
            r@ == self@.text(words::texts(shown@)),
    {
        match self {
            Note::LeverageSet(symbol) => two_parts("leverage set to 1x on ", symbol.as_str()),
            Note::LeverageFailed(e) => two_parts("leverage set failed: ", e.as_str()),
            Note::EntrySkipped { entry, .. } => {
                let mut out: String = two_parts("entry skipped: qty ", shown[0].as_str());
                out.append(" x ");
                out.append(entry.fixed(2).as_str());
                out.append(" below venue min notional ");
                out.append(shown[1].as_str());
                out
            },
            Note::EntrySent { id, side, entry, notional, risk, .. } => {
                let mut out: String = two_parts("entry order ", id.as_str());
                out.append(" ");
                out.append(
                    entry_words(*side, shown[0].as_str(), *entry, *notional, *risk).as_str(),
                );
                out
            },
            Note::EntryFailed(e) => two_parts("entry order failed: ", e.as_str()),
            Note::DryEntry { side, entry, notional, risk, .. } => two_parts(
                "(dry) entry ",
                entry_words(*side, shown[0].as_str(), *entry, *notional, *risk).as_str(),
            ),
            Note::Armed { .. } => {
                let mut out: String = two_parts("protection armed: SL ", shown[0].as_str());
                out.append(" TP ");
                out.append(shown[1].as_str());
                out
            },
            Note::ArmFailed(e) => two_parts("arm failed: ", e.as_str()),
            Note::DryTrail(sl) => two_parts("(dry) trail -> SL ", sl.fixed(2).as_str()),
            Note::Closed { exit_type, exit, .. } => {
                let mut out: String = two_parts("closed ", exit_type.as_str());
                out.append(" @ ");
                out.append(exit.fixed(2).as_str());
                out.append(" net ");
                out.append(shown[0].as_str());
                out.append(" USDT (fees ");
                out.append(shown[1].as_str());
                out.append(") equity ");
                out.append(shown[2].as_str());
                out
            },
            Note::CancelFailed(e) => two_parts("cancel on close failed: ", e.as_str()),
        }
    }
}

// ---------------------------------------------------------------------------
// The broker
// ---------------------------------------------------------------------------

/// What the exchange holds of the open trade.
#[derive(Clone, Copy, Debug)]
pub struct MirrorState {
    pub side: i8,
    pub qty: Double,
    pub sl: Double,
    pub tp: Double,
    /// Whether stop and target are in place.
    pub armed: bool,
}

/// The broker.
pub struct Broker {
    pub cfg: Config,
    pub cli: Option<RestCli>,
    pub ledger: Ledger,
    pub status: Vec<Json>,
    pub mirror: Option<MirrorState>,
    pub sizing: Option<Sizing>,
}

/// What the broker says.
pub struct BrokerView {
    pub cfg: ConfigView,
    pub cli: Option<CliView>,
    pub ledger: LedgerView,
    pub status: Seq<JsonView>,
    pub mirror: Option<MirrorState>,
    pub sizing: Option<Sizing>,
}

impl View for Broker {
    type V = BrokerView;

    open spec fn view(&self) -> BrokerView {
        BrokerView {
            cfg: self.cfg@,
            cli: match self.cli {
                Some(c) => Some(c@),
                None => None,
            },
            ledger: self.ledger@,
            status: crate::json::items_view(self.status@),
            mirror: self.mirror,
            sizing: self.sizing,
        }
    }
}

/// `q` rounded to `prec` digits behind the point.
pub open spec fn rounded_to(q: Double, prec: u32) -> Double {
    let m = Double::power_of_ten(prec as nat);
    q.product(m).to_whole().quotient(m)
}

/// The fees that a configuration asks for.
pub open spec fn fees_of(c: ConfigView) -> FeeModel {
    FeeModel { maker_pct: c.fee_maker_pct, taker_pct: c.fee_taker_pct, slip_pct: c.sl_slip_pct }
}

/// The sizing that a configuration asks for.
pub open spec fn sizing_of(c: ConfigView) -> SizingCfg {
    SizingCfg {
        legacy: c.legacy_sizing,
        position_usd: c.position_usd,
        risk_pct: c.risk_pct,
        leverage_cap: c.leverage_cap,
    }
}

/// The side on which a trade is entered.
pub open spec fn entry_side(side: i8) -> Side {
    if side == LONG {
        Side::Buy
    } else {
        Side::Sell
    }
}

/// The side on which a trade is left.
pub open spec fn exit_side(side: i8) -> Side {
    if side == LONG {
        Side::Sell
    } else {
        Side::Buy
    }
}

impl BrokerView {
    /// The broker of a configuration at the time `now`, before any trade.
    pub open spec fn fresh(c: ConfigView, now: i64) -> BrokerView {
        BrokerView {
            cfg: c,
            cli: None,
            ledger: LedgerView::fresh(c.paper_start_usdt, sizing_of(c), fees_of(c), now),
            status: seq![],
            mirror: None,
            sizing: None,
        }
    }

    /// Whether orders are sent.
    pub open spec fn trades(self) -> bool {
        self.cfg.may_order() && self.cli is Some
    }

    /// The order that goes with a new client.
    pub open spec fn first_order(self) -> Option<Order> {
        if self.futures() {
            Some(Order::Leverage(LEVERAGE))
        } else {
            None
        }
    }

    /// What the log tells of the leverage.
    pub open spec fn leverage_told(self, failure: Option<Seq<char>>) -> NoteView {
        match failure {
            None => NoteView::LeverageSet(self.cfg.symbol),
            Some(e) => NoteView::LeverageFailed(e),
        }
    }

    /// Whether orders go to the futures exchange.
    pub open spec fn futures(self) -> bool {
        self.cfg.venue == "futures"@
    }

    /// The quantity of a position as the market takes it.
    pub open spec fn quantity(self, entry: Double, slp: Double) -> Double {
        rounded_to(
            self.ledger.sized(entry, slp).qty,
            match self.cli {
                Some(c) => c.qty_prec,
                None => 3,
            },
        )
    }

    /// The least notional that the market takes.
    pub open spec fn least(self) -> Double {
        match self.cli {
            Some(c) => c.min_notional,
            None => Double::whole(5),
        }
    }

    /// The broker with a position sized and mirrored.
    pub open spec fn opened(
        self,
        side: i8,
        entry: Double,
        sl: Double,
        tp: Double,
        slp: Double,
    ) -> BrokerView {
        BrokerView {
            ledger: self.ledger.opened(entry, slp),
            sizing: Some(self.ledger.sized(entry, slp)),
            mirror: Some(
                MirrorState { side, qty: self.quantity(entry, slp), sl, tp, armed: false },
            ),
            ..self
        }
    }

    /// The order that enters a position, where one is sent: it is large enough
    /// for the market.
    pub open spec fn entry_order(self, side: i8, entry: Double, slp: Double) -> Option<Order> {
        let q = self.quantity(entry, slp);
        if self.trades() && !q.product(entry).below(self.least()) {
            Some(Order::Limit { side: entry_side(side), qty: q, price: entry })
        } else {
            None
        }
    }

    /// What the log tells of a position that no order is sent for.
    pub open spec fn entry_note(self, side: i8, entry: Double, slp: Double) -> Option<NoteView> {
        let q = self.quantity(entry, slp);
        let s = self.ledger.sized(entry, slp);
        if self.entry_order(side, entry, slp) is Some {
            None
        } else if self.trades() {
            Some(NoteView::EntrySkipped { qty: q, entry, min_notional: self.least() })
        } else {
            Some(
                NoteView::DryEntry {
                    side,
                    qty: q,
                    entry,
                    notional: s.notional_usd,
                    risk: s.risk_usd,
                },
            )
        }
    }

    /// The orders that put stop and target in place, in turn; none unless there
    /// is a position and orders are sent.
    pub open spec fn arm_orders(self) -> Seq<Order> {
        match self.mirror {
            Some(m) => if self.trades() {
                seq![
                    Order::CancelAll,
                    Order::Stop { side: exit_side(m.side), qty: m.qty, stop: m.sl },
                    Order::Target { side: exit_side(m.side), qty: m.qty, price: m.tp },
                ]
            } else {
                seq![]
            },
            None => seq![],
        }
    }

    /// The broker after stop and target were put in place, or were not.
    pub open spec fn armed(self, ok: bool) -> BrokerView {
        BrokerView {
            mirror: match self.mirror {
                Some(m) => Some(MirrorState { armed: ok, ..m }),
                None => None,
            },
            ..self
        }
    }

    /// The broker with the stop of the position moved.
    pub open spec fn trailed(self, sl: Double) -> BrokerView {
        BrokerView {
            mirror: match self.mirror {
                Some(m) => Some(MirrorState { sl, ..m }),
                None => None,
            },
            ..self
        }
    }

    /// The broker with a trade closed.
    pub open spec fn closed(self, t: TradeView) -> BrokerView {
        BrokerView {
            ledger: self.ledger.closed(t, t.exit_ts),
            mirror: None,
            sizing: None,
            ..self
        }
    }

    /// What the log tells of a closed trade.
    pub open spec fn close_note(self, t: TradeView) -> NoteView {
        let o = self.ledger.outcome(t);
        NoteView::Closed {
            exit_type: t.exit_type,
            exit: t.exit,
            net: ledger::in_steps(o.pnl_usd, 1_000_000),
            fees: ledger::in_steps(o.fee_usd, 1_000_000),
            equity: ledger::in_steps(self.ledger.equity.sum(o.pnl_usd), 100),
        }
    }

    /// The broker with one more entry in its log.
    pub open spec fn logged(self, msg: Seq<char>, ms: int) -> BrokerView {
        let all = self.status.push(JsonView::Object(log_fields(msg, ms)));
        BrokerView {
            status: if all.len() > LOG_FULL {
                ledger::last_items(all, LOG_KEPT as int)
            } else {
                all
            },
            ..self
        }
    }

    /// The newest entries of the log, the newest first.
    pub open spec fn newest(self) -> Seq<JsonView> {
        ledger::last_items(self.status, LOG_SHOWN as int).reverse()
    }
}

/// An entry of the log.
pub open spec fn log_fields(msg: Seq<char>, ms: int) -> Seq<(Seq<char>, JsonView)> {
    seq![
        ("ts"@, JsonView::Number(Double::whole(ms).quotient(Double::whole(1000)))),
        ("msg"@, JsonView::Text(msg)),
    ]
}

/// `q` rounded to `prec` digits behind the point.
pub fn round_to(q: Double, prec: u32) -> (r: Double)
    ensures
        r == rounded_to(q, prec),
{
    let m: Double = Double::ten_to(prec);
    q.times(m).round().over(m)
}

impl Broker {
    /// The broker of a configuration, before any trade.
    pub fn new(cfg: &Config) -> (r: Broker)
        ensures
            exists|now: i64| r@ == BrokerView::fresh(cfg@, now),
    {
        let fee = FeeModel {
            maker_pct: cfg.fee_maker_pct,
            taker_pct: cfg.fee_taker_pct,
            slip_pct: cfg.sl_slip_pct,
        };
        let sizing = SizingCfg {
            legacy: cfg.legacy_sizing,
            position_usd: cfg.position_usd,
            risk_pct: cfg.risk_pct,
            leverage_cap: cfg.leverage_cap,
        };
        let r = Broker {
            cfg: cfg.clone(),
            cli: None,
            ledger: Ledger::new(cfg.paper_start_usdt, sizing, fee),
            status: Vec::new(),
            mirror: None,
            sizing: None,
        };
        proof {
            let now = choose|now: i64|
                r.ledger@ == LedgerView::fresh(
                    cfg@.paper_start_usdt,
                    sizing_of(cfg@),
                    fees_of(cfg@),
                    now,
                );
            assert(r@.status =~= seq![]);
            assert(r@ == BrokerView::fresh(cfg@, now));
        }
        r
    }

    /// Whether the configuration asks for a client: orders may be sent and there
    /// is a key.
    pub fn wants_client(&self) -> (r: bool)
        ensures
            r == (self@.cfg.may_order() && self@.cfg.api_key.len() > 0),
    {
        self.cfg.tradable() && !self.cfg.api_key.as_str().is_empty()
    }

    /// Takes a client. On futures the leverage is set with it.
    pub fn attach(&mut self, cli: RestCli) -> (r: Option<Order>)
        ensures
            final(self)@ == (BrokerView { cli: Some(cli@), ..old(self)@ }),
            r == old(self)@.first_order(),
            old(self)@.futures() ==> r == Some(Order::Leverage(LEVERAGE)),
            !old(self)@.futures() ==> r is None,
    {
        self.cli = Some(cli);
        if self.is_futures() {
            Some(Order::Leverage(LEVERAGE))
        } else {
            None
        }
    }

    /// What the log tells of the leverage.
    pub fn on_leverage(&self, outcome: Result<(), String>) -> (r: Note)
        ensures
            r@ == self@.leverage_told(
                match outcome {
                    Ok(_) => None,
                    Err(e) => Some(e@),
                },
            ),
            match outcome {
                Ok(_) => r@ == NoteView::LeverageSet(self@.cfg.symbol),
                Err(e) => r@ == NoteView::LeverageFailed(e@),
            },
    {
        match outcome {
            Ok(_) => Note::LeverageSet(self.cfg.symbol.clone()),
            Err(e) => Note::LeverageFailed(e),
        }
    }

    fn is_futures(&self) -> (r: bool)
        ensures
            r == self@.futures(),
    {
        same(self.cfg.venue.as_str(), "futures")
    }

    /// Whether orders are sent.
    pub fn tradable(&self) -> (r: bool)
        ensures
            r == self@.trades(),
    {
        self.cfg.tradable() && self.cli.is_some()
    }

    /// Puts a message into the log at the time `ms`, in milliseconds.
    pub fn log(&mut self, msg: &str, ms: u128)
        requires
            ms < 0x4000_0000_0000_0000_0000_0000_0000_0000,
        ensures
            final(self)@ == old(self)@.logged(msg@, ms as int),
    {
        let mut f: Vec<(String, Json)> = Vec::new();
        put(
            &mut f,
            "ts",
            Json::Number(Double::from_u128(ms).over(Double::from_u64(1000))),
        );
        put(&mut f, "msg", text(msg));
        assert(crate::json::fields_view(f@) =~= log_fields(msg@, ms as int));
        put_item(&mut self.status, Json::Object(f));
        let ghost all = self.status@;
        let n: usize = self.status.len();
        proof {
            crate::json::lemma_items_view(all);
        }
        if n > LOG_FULL {
            let tail: Vec<Json> = self.status.split_off(n - LOG_KEPT);
            proof {
                crate::json::lemma_items_view(tail@);
                assert(crate::json::items_view(tail@) =~= ledger::last_items(
                    crate::json::items_view(all),
                    LOG_KEPT as int,
                ));
            }
            self.status = tail;
        }
    }

    /// The newest entries of the log, the newest first.
    pub fn status_json(&self) -> (r: Json)
        ensures
            r@ == JsonView::List(self@.newest()),
    {
        let n: usize = self.status.len();
        let stop: usize = if n > LOG_SHOWN {
            n - LOG_SHOWN
        } else {
            0
        };
        let ghost all = self@.status;
        let mut out: Vec<Json> = Vec::new();
        let mut i: usize = n;
        proof {
            crate::json::lemma_items_view(self.status@);
            assert(self@.newest().take(0) =~= seq![]);
        }
        while i > stop
            invariant
                stop <= i <= n,
                n == self.status@.len(),
                n == all.len(),
                all == self@.status,
                stop == if n > LOG_SHOWN {
                    n - LOG_SHOWN
                } else {
                    0
                },
                forall|k: int| 0 <= k < n ==> #[trigger] all[k] == self.status@[k]@,
                crate::json::items_view(out@) == self@.newest().take(n - i),
            decreases i,
        {
            i = i - 1;
            assert(all[i as int] == self.status@[i as int]@);
            put_item(&mut out, self.status[i].copy());
            assert(self@.newest().take(n - i) =~= self@.newest().take(n - i - 1).push(
                all[i as int],
            ));
        }
        assert(self@.newest().take(n - stop) =~= self@.newest());
        Json::List(out)
    }

    /// Takes a position that the engine has opened: sizes it, notes what the
    /// exchange is to hold of it, and gives the order that enters it, or what
    /// the log tells where none is sent.
    pub fn on_open(&mut self, side: i8, entry: Double, sl: Double, tp: Double, slp: Double) -> (r: (
        Option<Order>,
        Option<Note>,
    ))
        ensures
            final(self)@ == old(self)@.opened(side, entry, sl, tp, slp),
            r.0 == old(self)@.entry_order(side, entry, slp),
            match old(self)@.entry_note(side, entry, slp) {
                Some(n) => r.1 matches Some(x) && x@ == n,
                None => r.1 is None,
            },
    {
        let (prec, least): (u32, Double) = match &self.cli {
            Some(c) => (c.qty_prec, c.min_notional),
            None => (3, Double::from_u64(5)),
        };
        let tradable: bool = self.tradable();
        let s: Sizing = self.ledger.on_open(entry, slp);
        self.sizing = Some(s);
        let q: Double = round_to(s.qty, prec);
        self.mirror = Some(MirrorState { side, qty: q, sl, tp, armed: false });
        if !tradable {
            return (
                None,
                Some(
                    Note::DryEntry {
                        side,
                        qty: q,
                        entry,
                        notional: s.notional_usd,
                        risk: s.risk_usd,
                    },
                ),
            );
        }
        if q.times(entry).lt(least) {
            return (None, Some(Note::EntrySkipped { qty: q, entry, min_notional: least }));
        }
        let way: Side = if side == LONG {
            Side::Buy
        } else {
            Side::Sell
        };
        (Some(Order::Limit { side: way, qty: q, price: entry }), None)
    }

    /// What the log tells of an entry order: it carries the number that the
    /// exchange gave it, or what failed.
    pub fn on_entry(&self, outcome: Result<String, String>, entry: Double) -> (r: Option<Note>)
        ensures
            match (self@.mirror, self@.sizing) {
                (Some(m), Some(s)) => match outcome {
                    Ok(id) => r matches Some(x) && x@ == (NoteView::EntrySent {
                        id: id@,
                        side: m.side,
                        qty: m.qty,
                        entry,
                        notional: s.notional_usd,
                        risk: s.risk_usd,
                    }),
                    Err(e) => r matches Some(x) && x@ == NoteView::EntryFailed(e@),
                },
                _ => r is None,
            },
    {
        match (&self.mirror, &self.sizing) {
            (Some(m), Some(s)) => Some(
                match outcome {
                    Ok(id) => Note::EntrySent {
                        id,
                        side: m.side,
                        qty: m.qty,
                        entry,
                        notional: s.notional_usd,
                        risk: s.risk_usd,
                    },
                    Err(e) => Note::EntryFailed(e),
                },
            ),
            _ => None,
        }
    }

    /// The orders that put stop and target in place, to be sent in turn until
    /// one fails.
    pub fn arm(&self) -> (r: Vec<Order>)
        ensures
            r@ == self@.arm_orders(),
    {
        let mut out: Vec<Order> = Vec::new();
        if let Some(m) = &self.mirror {
            if self.tradable() {
                let way: Side = if m.side == LONG {
                    Side::Sell
                } else {
                    Side::Buy
                };
                out.push(Order::CancelAll);
                out.push(Order::Stop { side: way, qty: m.qty, stop: m.sl });
                out.push(Order::Target { side: way, qty: m.qty, price: m.tp });
            }
        }
        assert(out@ =~= self@.arm_orders());
        out
    }

    /// Takes what came of the orders that put stop and target in place.
    pub fn on_armed(&mut self, outcome: Result<(), String>) -> (r: Option<Note>)
        ensures
            final(self)@ == old(self)@.armed(outcome is Ok),
            match old(self)@.mirror {
                Some(m) => match outcome {
                    Ok(_) => r matches Some(x) && x@ == (NoteView::Armed { sl: m.sl, tp: m.tp }),
                    Err(e) => r matches Some(x) && x@ == NoteView::ArmFailed(e@),
                },
                None => r is None,
            },
    {
        match self.mirror {
            Some(m) => {
                self.mirror = Some(
                    MirrorState {
                        side: m.side,
                        qty: m.qty,
                        sl: m.sl,
                        tp: m.tp,
                        armed: outcome.is_ok(),
                    },
                );
                Some(
                    match outcome {
                        Ok(_) => Note::Armed { sl: m.sl, tp: m.tp },
                        Err(e) => Note::ArmFailed(e),
                    },
                )
            },
            None => None,
        }
    }

    /// Takes a stop that the engine has moved. Where orders are sent, stop and
    /// target are put in place anew; where not, the log tells of it.
    pub fn on_trail(&mut self, sl: Double) -> (r: (Vec<Order>, Option<Note>))
        ensures
            final(self)@ == old(self)@.trailed(sl),
            r.0@ == old(self)@.trailed(sl).arm_orders(),
            old(self)@.trades() ==> r.1 is None,
            !old(self)@.trades() ==> (r.1 matches Some(x) && x@ == NoteView::DryTrail(sl)),
    {
        if let Some(m) = self.mirror {
            self.mirror = Some(
                MirrorState { side: m.side, qty: m.qty, sl, tp: m.tp, armed: m.armed },
            );
        }
        let note: Option<Note> = if self.tradable() {
            None
        } else {
            Some(Note::DryTrail(sl))
        };
        (self.arm(), note)
    }

    /// Books a trade that the engine has closed and tells what it came to. Where
    /// orders are sent, those of the market are to be taken back.
    pub fn on_close(&mut self, t: &Trade) -> (r: (Json, Option<Order>, Note))
        requires
            old(self).ledger.n_trades < usize::MAX,
        ensures
            final(self)@ == old(self)@.closed(t@),
            r.0@ == JsonView::Object(old(self)@.ledger.close_fields(t@)),
            old(self)@.trades() ==> r.1 == Some(Order::CancelAll),
            !old(self)@.trades() ==> r.1 is None,
            r.2@ == old(self)@.close_note(t@),
    {
        let tradable: bool = self.tradable();
        let o: Outcome = self.ledger.outcome_of(t);
        let told: Json = self.ledger.on_close(t, t.exit_ts);
        self.mirror = None;
        self.sizing = None;
        let note = Note::Closed {
            exit_type: t.exit_type.clone(),
            exit: t.exit,
            net: round_steps(o.pnl_usd, 1_000_000),
            fees: round_steps(o.fee_usd, 1_000_000),
            equity: round_steps(self.ledger.equity, 100),
        };
        let order: Option<Order> = if tradable {
            Some(Order::CancelAll)
        } else {
            None
        };
        (told, order, note)
    }

    /// What the log tells once the orders of a closed trade were to be taken
    /// back: what failed, or else the note of the close.
    pub fn on_cancelled(outcome: Result<(), String>, note: Note) -> (r: Note)
        ensures
            match outcome {
                Ok(_) => r@ == note@,
                Err(e) => r@ == NoteView::CancelFailed(e@),
            },
    {
        match outcome {
            Ok(_) => note,
            Err(e) => Note::CancelFailed(e),
        }
    }

    /// Books a trade of the past in the ledger alone.
    pub fn quiet_close(&mut self, t: &Trade) -> (r: Json)
        requires
            old(self).ledger.n_trades < usize::MAX,
        ensures
            final(self)@ == (BrokerView { ledger: old(self)@.ledger.replayed(t@), ..old(self)@ }),
            r@ == JsonView::Object(
                old(self)@.ledger.opened(t.entry, t.slp).close_fields(t@),
            ),
    {
        self.ledger.apply_warm(t)
    }

    /// The balance as the dashboard reads it.
    pub fn balance(&self) -> (r: Json)
        ensures
            r@ == JsonView::Object(
                self@.ledger.balance_fields(
                    self@.cfg.mode_text(),
                    match self@.mirror {
                        Some(m) => m.armed,
                        None => false,
                    },
                ),
            ),
    {
        let armed: bool = match &self.mirror {
            Some(m) => m.armed,
            None => false,
        };
        self.ledger.balance(self.cfg.resolved_mode().as_str(), armed)
    }
}

// ---------------------------------------------------------------------------
// Laws
// ---------------------------------------------------------------------------

/// No order is sent unless the configuration allows it: the mode is one that
/// trades, the dry run is off, and there is a client.
pub proof fn law_no_order_unless_allowed(
    b: BrokerView,
    side: i8,
    entry: Double,
    slp: Double,
    sl: Double,
)
    requires
        b.cfg.dry_run || !b.cfg.trades() || b.cli is None,
    ensures
        !b.trades(),
        b.entry_order(side, entry, slp) is None,
        b.arm_orders().len() == 0,
        b.trailed(sl).arm_orders().len() == 0,
{
}

/// Ledger and exchange agree on the size of a position: what is ordered is the
/// ledger's own quantity, rounded to what the market takes.
pub proof fn law_one_sizing(b: BrokerView, side: i8, entry: Double, sl: Double, tp: Double, slp: Double)
    ensures
        ({
            let o = b.opened(side, entry, sl, tp, slp);
            let q = rounded_to(
                o.ledger.size().qty,
                match b.cli {
                    Some(c) => c.qty_prec,
                    None => 3,
                },
            );
            &&& o.mirror->0.qty == q
            &&& b.entry_order(side, entry, slp) matches Some(order) ==> order == (Order::Limit {
                side: entry_side(side),
                qty: q,
                price: entry,
            })
        }),
{
}

/// Stop and target are always those of the position: on the side that leaves
/// it, with its quantity, at its prices, after the orders before were taken
/// back.
pub proof fn law_protection_matches_position(b: BrokerView)
    ensures
        b.arm_orders().len() > 0 ==> {
            let m = b.mirror->0;
            &&& b.mirror is Some
            &&& b.arm_orders() == seq![
                Order::CancelAll,
                Order::Stop { side: exit_side(m.side), qty: m.qty, stop: m.sl },
                Order::Target { side: exit_side(m.side), qty: m.qty, price: m.tp },
            ]
            &&& exit_side(m.side) != entry_side(m.side)
        },
{
}

/// A closed trade leaves nothing to be mirrored.
pub proof fn law_close_clears_the_mirror(b: BrokerView, t: TradeView)
    ensures
        b.closed(t).mirror is None,
        b.closed(t).arm_orders().len() == 0,
        b.closed(t).ledger.open_sizing is None,
{
}

/// The log stays within its bound, and its newest entry is the last.
pub proof fn law_log_bounded(b: BrokerView, msg: Seq<char>, ms: int)
    requires
        b.status.len() <= LOG_FULL,
    ensures
        b.logged(msg, ms).status.len() <= LOG_FULL,
        b.logged(msg, ms).newest()[0] == JsonView::Object(log_fields(msg, ms)),
{
    let s = b.logged(msg, ms).status;
    assert(s.last() == JsonView::Object(log_fields(msg, ms)));
    let shown = ledger::last_items(s, LOG_SHOWN as int);
    assert(shown.last() == s.last());
}

} // verus!
