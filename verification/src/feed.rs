//! The market data feed: where bars and prices are asked for, what the answers
//! say, and how the feed is doing.

use crate::config::{Config, ConfigView, BINANCE_FUT_DATA, BINANCE_SPOT_DATA};
use crate::decimal;
use crate::double::Double;
use crate::engine::copy_bars;
use crate::json::{put, text, Json, JsonView};
use crate::ledger;
use crate::profile;
use crate::profile::{insert_bar, Bar};
use crate::text;
use crate::text::{push_decimal, push_signed, same};
use crate::words;
use crate::words::parse_i64;
use vstd::prelude::*;
use vstd::string::*;

verus! {

/// Bars that are kept.
pub const BARS_KEPT: usize = 30_000;

/// Failures in a row from which the feed is not healthy.
pub const SICK_AFTER: u64 = 5;

// ---------------------------------------------------------------------------
// Health
// ---------------------------------------------------------------------------

/// How the feed is doing.
#[derive(Clone, Debug)]
pub struct FeedHealth {
    pub polls: u64,
    pub fails: u64,
    pub consecutive_fails: u64,
    pub last_ok_ts: Option<i64>,
    pub last_error: Option<String>,
}

/// What the health of the feed says.
pub struct HealthView {
    pub polls: int,
    pub fails: int,
    pub consecutive_fails: int,
    pub last_ok_ts: Option<i64>,
    pub last_error: Option<Seq<char>>,
}

impl View for FeedHealth {
    type V = HealthView;

    open spec fn view(&self) -> HealthView {
        HealthView {
            polls: self.polls as int,
            fails: self.fails as int,
            consecutive_fails: self.consecutive_fails as int,
            last_ok_ts: self.last_ok_ts,
            last_error: match self.last_error {
                Some(e) => Some(e@),
                None => None,
            },
        }
    }
}

impl HealthView {
    /// Failures in a row are among all failures.
    pub open spec fn wf(self) -> bool {
        0 <= self.polls && 0 <= self.consecutive_fails <= self.fails
    }

    /// The health before any poll.
    pub open spec fn fresh() -> HealthView {
        HealthView {
            polls: 0,
            fails: 0,
            consecutive_fails: 0,
            last_ok_ts: None,
            last_error: None,
        }
    }

    /// The health after a failure.
    pub open spec fn failed(self, error: Seq<char>) -> HealthView {
        HealthView {
            fails: self.fails + 1,
            consecutive_fails: self.consecutive_fails + 1,
            last_error: Some(error),
            ..self
        }
    }

    /// The health after something came in.
    pub open spec fn well(self, now: i64) -> HealthView {
        HealthView { consecutive_fails: 0, last_ok_ts: Some(now), ..self }
    }

    /// The health after bars came in.
    pub open spec fn polled(self, now: i64) -> HealthView {
        HealthView { polls: self.polls + 1, ..self.well(now) }
    }

    /// Whether the feed is well: few failures in a row.
    pub open spec fn healthy(self) -> bool {
        self.consecutive_fails < SICK_AFTER
    }

    /// The health as the dashboard reads it.
    pub open spec fn fields(self) -> Seq<(Seq<char>, JsonView)> {
        seq![
            ("polls"@, JsonView::Whole(self.polls)),
            ("fails"@, JsonView::Whole(self.fails)),
            ("consecutive_fails"@, JsonView::Whole(self.consecutive_fails)),
            (
                "last_ok_ts"@,
                match self.last_ok_ts {
                    Some(t) => JsonView::Whole(t as int),
                    None => JsonView::Null,
                },
            ),
            ("last_error"@, JsonView::of_text(self.last_error)),
            ("healthy"@, JsonView::Bool(self.healthy())),
        ]
    }
}

impl Default for FeedHealth {
    fn default() -> (r: FeedHealth)
        ensures
            r@ == HealthView::fresh(),
    {
        FeedHealth {
            polls: 0,
            fails: 0,
            consecutive_fails: 0,
            last_ok_ts: None,
            last_error: None,
        }
    }
}

impl FeedHealth {
    /// The health as the dashboard reads it.
    pub fn to_json(&self) -> (r: Json)
        ensures
            r@ == JsonView::Object(self@.fields()),
    {
        let mut f: Vec<(String, Json)> = Vec::new();
        put(&mut f, "polls", Json::Uint(self.polls));
        put(&mut f, "fails", Json::Uint(self.fails));
        put(&mut f, "consecutive_fails", Json::Uint(self.consecutive_fails));
        put(
            &mut f,
            "last_ok_ts",
            match self.last_ok_ts {
                Some(t) => Json::Int(t),
                None => Json::Null,
            },
        );
        put(
            &mut f,
            "last_error",
            match &self.last_error {
                Some(e) => text(e.as_str()),
                None => Json::Null,
            },
        );
        put(&mut f, "healthy", Json::Bool(self.consecutive_fails < SICK_AFTER));
        assert(crate::json::fields_view(f@) =~= self@.fields());
        Json::Object(f)
    }

    /// Notes a failure.
    pub fn note_failure(&mut self, error: String)
        requires
            old(self)@.wf(),
            old(self).fails < u64::MAX,
        ensures
            final(self)@ == old(self)@.failed(error@),
            final(self)@.wf(),
    {
        self.fails = self.fails + 1;
        self.consecutive_fails = self.consecutive_fails + 1;
        self.last_error = Some(error);
    }

    /// Notes that something came in.
    pub fn note_success(&mut self, now: i64)
        requires
            old(self)@.wf(),
        ensures
            final(self)@ == old(self)@.well(now),
            final(self)@.wf(),
    {
        self.consecutive_fails = 0;
        self.last_ok_ts = Some(now);
    }

    /// Notes that bars came in.
    pub fn note_poll(&mut self, now: i64)
        requires
            old(self)@.wf(),
            old(self).polls < u64::MAX,
        ensures
            final(self)@ == old(self)@.polled(now),
            final(self)@.wf(),
    {
        self.polls = self.polls + 1;
        self.note_success(now);
    }
}

// ---------------------------------------------------------------------------
// The feed
// ---------------------------------------------------------------------------

/// Where data comes from.
#[derive(Clone, Copy, Debug, PartialEq, Eq, Structural)]
pub enum Venue {
    Bybit,
    BinanceSpot,
    BinanceFutures,
}

/// The feed.
pub struct RestFeed {
    pub venue: Venue,
    pub symbol: String,
    /// Seconds that a bar lasts.
    pub interval_s: i64,
    pub base: String,
    pub bars: Vec<Bar>,
    /// The time of the last bar.
    pub last: Option<i64>,
    pub last_price: Option<Double>,
    pub health: FeedHealth,
    /// Bars that are asked for at the start.
    pub boot_limit: usize,
}

/// What the feed says.
pub struct FeedView {
    pub venue: Venue,
    pub symbol: Seq<char>,
    pub interval_s: i64,
    pub base: Seq<char>,
    pub bars: Seq<Bar>,
    pub last: Option<i64>,
    pub last_price: Option<Double>,
    pub health: HealthView,
    pub boot_limit: usize,
}

impl View for RestFeed {
    type V = FeedView;

    open spec fn view(&self) -> FeedView {
        FeedView {
            venue: self.venue,
            symbol: self.symbol@,
            interval_s: self.interval_s,
            base: self.base@,
            bars: self.bars@,
            last: self.last,
            last_price: self.last_price,
            health: self.health@,
            boot_limit: self.boot_limit,
        }
    }
}

/// The venue that a configuration takes its data from.
pub open spec fn venue_of(c: ConfigView) -> Venue {
    if c.data_source() == "bybit"@ {
        Venue::Bybit
    } else if c.data_source() == "futures"@ {
        Venue::BinanceFutures
    } else {
        Venue::BinanceSpot
    }
}

/// `a / b` cut towards zero.
pub open spec fn cut_quotient(a: int, b: int) -> int {
    if a >= 0 {
        a / b
    } else {
        -((-a) / b)
    }
}

/// The whole number at a place of a row, written as a number or as text; 0
/// where it is neither.
pub open spec fn whole_at(row: Seq<JsonView>, i: int) -> int {
    match row[i].whole() {
        Some(n) => if i64::MIN <= n <= i64::MAX {
            n
        } else {
            0
        },
        None => match row[i].text() {
            Some(s) => match words::number_within(s, i64::MIN as int, i64::MAX as int) {
                Some(n) => n,
                None => 0,
            },
            None => 0,
        },
    }
}

/// The number at a place of a row, written as a number or as text; 0 where it
/// is neither.
pub open spec fn number_at(row: Seq<JsonView>, i: int) -> Double {
    match row[i].number() {
        Some(x) => x,
        None => match row[i].text() {
            Some(s) => match decimal::parsed(s) {
                Some(x) => x,
                None => Double { bits: 0 },
            },
            None => Double { bits: 0 },
        },
    }
}

impl FeedView {
    /// The feed of a configuration, before any poll.
    pub open spec fn fresh(c: ConfigView) -> FeedView {
        let venue = venue_of(c);
        FeedView {
            venue,
            symbol: c.symbol,
            interval_s: 900,
            base: match venue {
                Venue::Bybit => c.bybit_base,
                Venue::BinanceSpot => BINANCE_SPOT_DATA@,
                Venue::BinanceFutures => BINANCE_FUT_DATA@,
            },
            bars: seq![],
            last: None,
            last_price: None,
            health: HealthView::fresh(),
            boot_limit: 1000,
        }
    }

    /// Where bars are asked for.
    pub open spec fn bars_url(self, limit: nat) -> Seq<char> {
        let shown = text::decimal(
            if limit < 1000 {
                limit
            } else {
                1000
            },
        );
        match self.venue {
            Venue::Bybit => self.base + "/v5/market/kline?category=linear&symbol="@ + self.symbol
                + "&interval=15&limit="@ + shown,
            Venue::BinanceSpot => self.base + "/api/v3/klines?symbol="@ + self.symbol
                + "&interval=15m&limit="@ + shown,
            Venue::BinanceFutures => self.base + "/fapi/v1/klines?symbol="@ + self.symbol
                + "&interval=15m&limit="@ + shown,
        }
    }

    /// Where the last price is asked for.
    pub open spec fn price_url(self) -> Seq<char> {
        match self.venue {
            Venue::Bybit => self.base + "/v5/market/tickers?category=linear&symbol="@ + self.symbol,
            Venue::BinanceSpot => self.base + "/api/v3/ticker/price?symbol="@ + self.symbol,
            Venue::BinanceFutures => self.base + "/fapi/v1/ticker/price?symbol="@ + self.symbol,
        }
    }

    /// The bar that a row makes at the time `now_ms`, if it makes one: a row of
    /// seven fields and more, of a bar that is closed and new.
    pub open spec fn bar_of(self, row: JsonView, now_ms: int) -> Option<Bar> {
        match row {
            JsonView::List(f) => {
                let ts_ms = whole_at(f, 0);
                let ts = cut_quotient(ts_ms, 1000);
                if f.len() < 7 || ts_ms + self.interval_s * 1000 > now_ms {
                    None
                } else if self.last is Some && ts <= self.last->0 {
                    None
                } else {
                    Some(
                        Bar {
                            ts: ts as i64,
                            o: number_at(f, 1),
                            h: number_at(f, 2),
                            l: number_at(f, 3),
                            c: number_at(f, 4),
                            v: if self.venue != Venue::Bybit && f.len() > 8 {
                                number_at(f, 8)
                            } else {
                                number_at(f, 5)
                            },
                        },
                    )
                }
            },
            _ => None,
        }
    }

    /// The bars that the first `n` rows make.
    pub open spec fn bars_of(self, rows: Seq<JsonView>, now_ms: int, n: nat) -> Seq<Bar>
        decreases n,
    {
        if n == 0 {
            seq![]
        } else {
            let before = self.bars_of(rows, now_ms, (n - 1) as nat);
            match self.bar_of(rows[n - 1], now_ms) {
                Some(b) => before.push(b),
                None => before,
            }
        }
    }

    /// The bars that some rows make, in the order of their times.
    pub open spec fn new_bars(self, rows: Seq<JsonView>, now_ms: int) -> Seq<Bar> {
        profile::in_time_order(self.bars_of(rows, now_ms, rows.len()))
    }

    /// The rows of an answer, the oldest first, or what is wrong with it.
    pub open spec fn rows_of(self, j: JsonView) -> Result<Seq<JsonView>, Seq<char>> {
        match self.venue {
            Venue::Bybit => {
                let code = match j.field("retCode"@) {
                    Some(v) => match v.whole() {
                        Some(n) => if i64::MIN <= n <= i64::MAX {
                            n
                        } else {
                            0
                        },
                        None => 0,
                    },
                    None => 0,
                };
                let message = match j.field("retMsg"@) {
                    Some(v) => match v.text() {
                        Some(s) => s,
                        None => seq![],
                    },
                    None => seq![],
                };
                if code != 0 {
                    Err("bybit retCode "@ + text::signed_decimal(code) + ": "@ + message)
                } else {
                    Ok(list_at(j).reverse())
                }
            },
            _ => Ok(
                match j {
                    JsonView::List(rows) => rows,
                    _ => seq![],
                },
            ),
        }
    }

    /// The price that an answer tells.
    pub open spec fn price_of(self, j: JsonView) -> Option<Double> {
        let field = match self.venue {
            Venue::Bybit => match first_at(j) {
                Some(v) => v.field("lastPrice"@),
                None => None,
            },
            _ => j.field("price"@),
        };
        match field {
            Some(v) => match v.text() {
                Some(s) => decimal::parsed(s),
                None => None,
            },
            None => None,
        }
    }

    /// The feed after the first bars came in.
    pub open spec fn booted(self, bars: Seq<Bar>, now: i64) -> FeedView {
        FeedView {
            bars,
            last: if bars.len() > 0 {
                Some(bars.last().ts)
            } else {
                None
            },
            health: self.health.polled(now),
            ..self
        }
    }

    /// How many bars a poll asks for.
    pub open spec fn poll_size(self) -> nat {
        let more = self.bars.len() / 500;
        3 + if more < 17 {
            more
        } else {
            17
        }
    }

    /// The feed after a poll brought bars.
    pub open spec fn polled(self, bars: Seq<Bar>, now: i64) -> FeedView {
        let all = self.bars + bars;
        FeedView {
            bars: if bars.len() > 0 {
                ledger::last_items(all, BARS_KEPT as int)
            } else {
                self.bars
            },
            last: if bars.len() > 0 {
                Some(all.last().ts)
            } else {
                self.last
            },
            health: self.health.polled(now),
            ..self
        }
    }

    /// The feed after something failed.
    pub open spec fn failed(self, error: Seq<char>) -> FeedView {
        FeedView { health: self.health.failed(error), ..self }
    }

    /// The feed after a price came in.
    pub open spec fn priced(self, price: Double, now: i64) -> FeedView {
        FeedView { last_price: Some(price), health: self.health.well(now), ..self }
    }

    /// The feed after the question for the last price, and the price that it
    /// gave.
    pub open spec fn asked_for_price(
        self,
        answer: Result<JsonView, Seq<char>>,
        now: i64,
    ) -> (FeedView, Option<Double>) {
        match answer {
            Ok(j) => match self.price_of(j) {
                Some(p) => (self.priced(p, now), Some(p)),
                None => (self.failed("ticker: no lastPrice"@), None),
            },
            Err(e) => (self.failed(e), None),
        }
    }

    /// The name of the venue.
    pub open spec fn label(self) -> Seq<char> {
        match self.venue {
            Venue::Bybit => "bybit"@,
            Venue::BinanceSpot => "binance-spot"@,
            Venue::BinanceFutures => "binance-futures"@,
        }
    }
}

/// The list under `result` and `list`; empty where there is none.
pub open spec fn list_at(j: JsonView) -> Seq<JsonView> {
    match j.field("result"@) {
        Some(r) => match r.field("list"@) {
            Some(JsonView::List(rows)) => rows,
            _ => seq![],
        },
        None => seq![],
    }
}

/// The first entry under `result` and `list`.
pub open spec fn first_at(j: JsonView) -> Option<JsonView> {
    match j.field("result"@) {
        Some(r) => match r.field("list"@) {
            Some(l) => match l {
                JsonView::List(rows) => l.item(0),
                _ => l.field("0"@),
            },
            None => None,
        },
        None => None,
    }
}

/// The number of a field, written as a number or as text.
fn number_in(row: &Vec<Json>, i: usize) -> (r: Double)
    requires
        i < row@.len(),
    ensures
        r == number_at(crate::json::items_view(row@), i as int),
{
    proof {
        crate::json::lemma_items_view(row@);
    }
    match row[i].as_double() {
        Some(x) => x,
        None => match row[i].as_str() {
            Some(s) => match Double::parse(s) {
                Some(x) => x,
                None => Double { bits: 0 },
            },
            None => Double { bits: 0 },
        },
    }
}

/// The whole number of a field, written as a number or as text.
fn whole_in(row: &Vec<Json>, i: usize) -> (r: i64)
    requires
        i < row@.len(),
    ensures
        r == whole_at(crate::json::items_view(row@), i as int),
{
    proof {
        crate::json::lemma_items_view(row@);
    }
    match row[i].as_i64() {
        Some(n) => n,
        None => match row[i].as_str() {
            Some(s) => match parse_i64(s) {
                Some(n) => n,
                None => 0,
            },
            None => 0,
        },
    }
}

fn thousandth(ms: i64) -> (r: i64)
    ensures
        r == cut_quotient(ms as int, 1000),
{
    if ms >= 0 {
        ms / 1000
    } else {
        let up: i128 = -(ms as i128);
        (-(up / 1000)) as i64
    }
}

impl RestFeed {
    /// The feed of a configuration.
    pub fn new(cfg: &Config) -> (r: RestFeed)
        ensures
            r@ == FeedView::fresh(cfg@),
    {
        let source: String = cfg.resolved_data_venue();
        let venue: Venue = if same(source.as_str(), "bybit") {
            Venue::Bybit
        } else if same(source.as_str(), "futures") {
            Venue::BinanceFutures
        } else {
            Venue::BinanceSpot
        };
        let base: String = match venue {
            Venue::Bybit => cfg.bybit_base.clone(),
            Venue::BinanceSpot => BINANCE_SPOT_DATA.to_owned(),
            Venue::BinanceFutures => BINANCE_FUT_DATA.to_owned(),
        };
        let r = RestFeed {
            venue,
            symbol: cfg.symbol.clone(),
            interval_s: 900,
            base,
            bars: Vec::new(),
            last: None,
            last_price: None,
            health: FeedHealth::default(),
            boot_limit: 1000,
        };
        assert(r@.bars =~= seq![]);
        r
    }

    /// Where bars are asked for.
    pub fn klines_url(&self, limit: usize) -> (r: String)
        ensures
            r@ == self@.bars_url(limit as nat),
    {
        let shown: u64 = if limit < 1000 {
            limit as u64
        } else {
            1000
        };
        let mut out: String = self.base.clone();
        out.append(
            match self.venue {
                Venue::Bybit => "/v5/market/kline?category=linear&symbol=",
                Venue::BinanceSpot => "/api/v3/klines?symbol=",
                Venue::BinanceFutures => "/fapi/v1/klines?symbol=",
            },
        );
        out.append(self.symbol.as_str());
        out.append(
            match self.venue {
                Venue::Bybit => "&interval=15&limit=",
                _ => "&interval=15m&limit=",
            },
        );
        push_decimal(&mut out, shown);
        out
    }

    /// Where the last price is asked for.
    pub fn ticker_url(&self) -> (r: String)
        ensures
            r@ == self@.price_url(),
    {
        let mut out: String = self.base.clone();
        out.append(
            match self.venue {
                Venue::Bybit => "/v5/market/tickers?category=linear&symbol=",
                Venue::BinanceSpot => "/api/v3/ticker/price?symbol=",
                Venue::BinanceFutures => "/fapi/v1/ticker/price?symbol=",
            },
        );
        out.append(self.symbol.as_str());
        out
    }

    /// The bar that a row makes, if it makes one.
    fn parse_row(&self, row: &Json, now_ms: i64) -> (r: Option<Bar>)
        ensures
            r == self@.bar_of(row@, now_ms as int),
    {
        let f: &Vec<Json> = match row.as_array() {
            Some(f) => f,
            None => {
                return None;
            },
        };
        proof {
            crate::json::lemma_items_view(f@);
        }
        if f.len() < 7 {
            return None;
        }
        let ts_ms: i64 = whole_in(f, 0);
        if ts_ms as i128 + self.interval_s as i128 * 1000 > now_ms as i128 {
            return None;
        }
        let ts: i64 = thousandth(ts_ms);
        if let Some(last) = self.last {
            if ts <= last {
                return None;
            }
        }
        let v: Double = match self.venue {
            Venue::Bybit => number_in(f, 5),
            _ => if f.len() > 8 {
                number_in(f, 8)
            } else {
                number_in(f, 5)
            },
        };
        Some(
            Bar {
                ts,
                o: number_in(f, 1),
                h: number_in(f, 2),
                l: number_in(f, 3),
                c: number_in(f, 4),
                v,
            },
        )
    }

    /// The closed and new bars that some rows make, the oldest first.
    pub fn parse_rows(&self, rows: &Vec<Json>, now_ms: i64) -> (r: Vec<Bar>)
        ensures
            r@ == self@.new_bars(crate::json::items_view(rows@), now_ms as int),
    {
        let ghost v = crate::json::items_view(rows@);
        let mut out: Vec<Bar> = Vec::new();
        let ghost mut found: Seq<Bar> = seq![];
        let mut i: usize = 0;
        proof {
            crate::json::lemma_items_view(rows@);
        }
        while i < rows.len()
            invariant
                i <= rows@.len(),
                v == crate::json::items_view(rows@),
                v.len() == rows@.len(),
                forall|k: int| 0 <= k < rows@.len() ==> #[trigger] v[k] == rows@[k]@,
                found == self@.bars_of(v, now_ms as int, i as nat),
                out@ == profile::in_time_order(found),
            decreases rows@.len() - i,
        {
            assert(v[i as int] == rows@[i as int]@);
            if let Some(b) = self.parse_row(&rows[i], now_ms) {
                proof {
                    let before = found;
                    found = found.push(b);
                    assert(found.drop_last() =~= before);
                }
                insert_bar(&mut out, b);
            }
            i = i + 1;
        }
        out
    }

    /// The bars that an answer brings, or what is wrong with it.
    pub fn read_klines(&self, j: &Json, now_ms: i64) -> (r: Result<Vec<Bar>, String>)
        ensures
            match self@.rows_of(j@) {
                Ok(rows) => r matches Ok(bars) && bars@ == self@.new_bars(rows, now_ms as int),
                Err(e) => r matches Err(x) && x@ == e,
            },
    {
        match self.venue {
            Venue::Bybit => {
                let code: i64 = match j.get("retCode") {
                    Some(v) => match v.as_i64() {
                        Some(n) => n,
                        None => 0,
                    },
                    None => 0,
                };
                if code != 0 {
                    let mut e: String = "bybit retCode ".to_owned();
                    push_signed(&mut e, code);
                    e.append(": ");
                    let ghost head = e@;
                    if let Some(v) = j.get("retMsg") {
                        if let Some(s) = v.as_str() {
                            e.append(s);
                        }
                    }
                    assert(head + seq![] =~= head);
                    return Err(e);
                }
                let rows: Vec<Json> = reversed_list(j);
                Ok(self.parse_rows(&rows, now_ms))
            },
            _ => match j.as_array() {
                Some(rows) => Ok(self.parse_rows(rows, now_ms)),
                None => {
                    let none: Vec<Json> = Vec::new();
                    Ok(self.parse_rows(&none, now_ms))
                },
            },
        }
    }

    /// Takes what the first fetch brought.
    pub fn bootstrap(&mut self, fetched: Result<Vec<Bar>, String>, now: i64) -> (r: Result<
        Vec<Bar>,
        String,
    >)
        requires
            old(self).health@.wf(),
            old(self).health.polls < u64::MAX,
        ensures
            match fetched {
                Ok(bars) => {
                    &&& final(self)@ == old(self)@.booted(bars@, now)
                    &&& r matches Ok(out) && out@ == bars@
                },
                Err(e) => final(self)@ == old(self)@ && (r matches Err(x) && x@ == e@),
            },
            final(self).health@.wf(),
    {
        match fetched {
            Ok(bars) => {
                let n: usize = bars.len();
                self.last = if n > 0 {
                    Some(bars[n - 1].ts)
                } else {
                    None
                };
                self.bars = copy_bars(&bars);
                self.health.note_poll(now);
                Ok(bars)
            },
            Err(e) => Err(e),
        }
    }

    /// How many bars a poll asks for.
    pub fn poll_limit(&self) -> (r: usize)
        ensures
            r == self@.poll_size(),
    {
        let more: usize = self.bars.len() / 500;
        3 + if more < 17 {
            more
        } else {
            17
        }
    }

    /// Takes what a poll brought and hands out the new bars.
    pub fn poll(&mut self, fetched: Result<Vec<Bar>, String>, now: i64) -> (r: Vec<Bar>)
        requires
            old(self).health@.wf(),
            old(self).health.polls < u64::MAX,
            old(self).health.fails < u64::MAX,
        ensures
            match fetched {
                Ok(bars) => final(self)@ == old(self)@.polled(bars@, now) && r@ == bars@,
                Err(e) => final(self)@ == old(self)@.failed(e@) && r@.len() == 0,
            },
            final(self).health@.wf(),
    {
        match fetched {
            Ok(bars) => {
                let n: usize = bars.len();
                if n > 0 {
                    self.last = Some(bars[n - 1].ts);
                    let mut more: Vec<Bar> = copy_bars(&bars);
                    self.bars.append(&mut more);
                    let size: usize = self.bars.len();
                    if size > BARS_KEPT {
                        let tail: Vec<Bar> = self.bars.split_off(size - BARS_KEPT);
                        self.bars = tail;
                    }
                    assert(self.bars@ =~= ledger::last_items(
                        old(self)@.bars + bars@,
                        BARS_KEPT as int,
                    ));
                }
                self.health.note_poll(now);
                bars
            },
            Err(e) => {
                self.health.note_failure(e);
                Vec::new()
            },
        }
    }

    /// Takes what the venue answered to the question for the last price.
    pub fn poll_ticker(&mut self, answer: Result<Json, String>, now: i64) -> (r: Option<Double>)
        requires
            old(self).health@.wf(),
            old(self).health.fails < u64::MAX,
        ensures
            match answer {
                Ok(j) => (final(self)@, r) == old(self)@.asked_for_price(
                    Ok::<JsonView, Seq<char>>(j@),
                    now,
                ),
                Err(e) => (final(self)@, r) == old(self)@.asked_for_price(
                    Err::<JsonView, Seq<char>>(e@),
                    now,
                ),
            },
            match answer {
                Ok(j) => match old(self)@.price_of(j@) {
                    Some(p) => final(self)@ == old(self)@.priced(p, now) && r == Some(p),
                    None => final(self)@ == old(self)@.failed("ticker: no lastPrice"@) && r is None,
                },
                Err(e) => final(self)@ == old(self)@.failed(e@) && r is None,
            },
            final(self).health@.wf(),
    {
        match answer {
            Ok(j) => match self.read_price(&j) {
                Some(p) => {
                    self.last_price = Some(p);
                    self.health.note_success(now);
                    Some(p)
                },
                None => {
                    self.health.note_failure("ticker: no lastPrice".to_owned());
                    None
                },
            },
            Err(e) => {
                self.health.note_failure(e);
                None
            },
        }
    }

    fn read_price(&self, j: &Json) -> (r: Option<Double>)
        ensures
            r == self@.price_of(j@),
    {
        let field: Option<&Json> = match self.venue {
            Venue::Bybit => match first_entry(j) {
                Some(v) => v.get("lastPrice"),
                None => None,
            },
            _ => j.get("price"),
        };
        match field {
            Some(v) => match v.as_str() {
                Some(s) => Double::parse(s),
                None => None,
            },
            None => None,
        }
    }

    /// The name of the venue.
    pub fn venue_label(&self) -> (r: &'static str)
        ensures
            r@ == self@.label(),
    {
        match self.venue {
            Venue::Bybit => "bybit",
            Venue::BinanceSpot => "binance-spot",
            Venue::BinanceFutures => "binance-futures",
        }
    }
}

/// The first entry under `result` and `list`.
fn first_entry(j: &Json) -> (r: Option<&Json>)
    ensures
        match first_at(j@) {
            Some(v) => r matches Some(x) && x@ == v,
            None => r is None,
        },
{
    match j.get("result") {
        Some(x) => match x.get("list") {
            Some(l) => match l.as_array() {
                Some(_) => l.item(0),
                None => l.get("0"),
            },
            None => None,
        },
        None => None,
    }
}

/// The list under `result` and `list`, the last row first.
fn reversed_list(j: &Json) -> (r: Vec<Json>)
    ensures
        crate::json::items_view(r@) == list_at(j@).reverse(),
{
    let mut out: Vec<Json> = Vec::new();
    if let Some(x) = j.get("result") {
        if let Some(l) = x.get("list") {
            if let Some(rows) = l.as_array() {
                let ghost v = crate::json::items_view(rows@);
                proof {
                    crate::json::lemma_items_view(rows@);
                }
                let mut i: usize = rows.len();
                assert(v.reverse().take(0) =~= seq![]);
                while i > 0
                    invariant
                        i <= rows@.len(),
                        v.len() == rows@.len(),
                        forall|k: int| 0 <= k < rows@.len() ==> #[trigger] v[k] == rows@[k]@,
                        crate::json::items_view(out@) == v.reverse().take(rows@.len() - i),
                    decreases i,
                {
                    i = i - 1;
                    assert(v[i as int] == rows@[i as int]@);
                    put_copy(&mut out, &rows[i]);
                    assert(v.reverse().take(rows@.len() - i) =~= v.reverse().take(
                        rows@.len() - i - 1,
                    ).push(v[i as int]));
                }
                assert(v.reverse().take(rows@.len() as int) =~= v.reverse());
                return out;
            }
        }
    }
    assert(crate::json::items_view(out@) =~= list_at(j@).reverse());
    out
}

fn put_copy(out: &mut Vec<Json>, j: &Json)
    ensures
        crate::json::items_view(final(out)@) == crate::json::items_view(old(out)@).push(j@),
{
    crate::json::put_item(out, j.copy());
}

/// A fetch of bars: how many tries it may take and how many it has taken.
#[derive(Clone, Copy, Debug)]
pub struct Fetch {
    pub attempt: u32,
    pub retries: u32,
}

impl Fetch {
    /// A fetch that has not been tried yet.
    pub fn new(retries: u32) -> (r: Fetch)
        ensures
            r.attempt == 0,
            r.retries == retries,
    {
        Fetch { attempt: 0, retries }
    }

    /// After a try failed: how many milliseconds to wait before the next one, or
    /// `None` where the fetch has failed for good. The pauses grow.
    pub fn on_failure(&mut self) -> (r: Option<u64>)
        requires
            old(self).attempt < u32::MAX,
        ensures
            *final(self) == after_failure(*old(self)).1,
            match after_failure(*old(self)).0 {
                Some(ms) => r matches Some(x) && x == ms,
                None => r is None,
            },
            final(self).retries == old(self).retries,
            old(self).attempt + 1 < old(self).retries ==> {
                &&& r == Some((1500 * (old(self).attempt + 1)) as u64)
                &&& final(self).attempt == old(self).attempt + 1
            },
            old(self).attempt + 1 >= old(self).retries ==> r is None && *final(self) == *old(self),
    {
        if self.attempt + 1 < self.retries {
            self.attempt = self.attempt + 1;
            Some(1500 * self.attempt as u64)
        } else {
            None
        }
    }
}

/// Milliseconds to wait after a try failed, and the fetch after it; none where
/// it has failed for good.
pub open spec fn after_failure(fetch: Fetch) -> (Option<int>, Fetch) {
    if fetch.attempt + 1 < fetch.retries {
        (
            Some(1500 * (fetch.attempt + 1)),
            Fetch { attempt: (fetch.attempt + 1) as u32, retries: fetch.retries },
        )
    } else {
        (None, fetch)
    }
}

/// How a fetch of bars goes on.
#[derive(Debug)]
pub enum Step {
    /// The fetch is over.
    Done(Result<Vec<Bar>, String>),
    /// The bars are asked for again after so many milliseconds.
    Again(u64),
}

impl RestFeed {
    /// Takes the answer to a try of a fetch. A try that brought no answer is
    /// repeated while tries are left; an answer that tells an error is final.
    pub fn fetch_klines(&self, fetch: &mut Fetch, answer: Result<Json, String>, now_ms: i64) -> (r:
        Step)
        requires
            old(fetch).attempt < u32::MAX,
        ensures
            final(fetch).retries == old(fetch).retries,
            match answer {
                Ok(j) => {
                    &&& *final(fetch) == *old(fetch)
                    &&& r is Done
                    &&& match self@.rows_of(j@) {
                        Ok(rows) => r->Done_0 matches Ok(bars) && bars@ == self@.new_bars(
                            rows,
                            now_ms as int,
                        ),
                        Err(e) => r->Done_0 matches Err(x) && x@ == e,
                    }
                },
                Err(e) => if after_failure(*old(fetch)).0 is Some {
                    &&& r matches Step::Again(ms) && Some(ms as int) == after_failure(*old(fetch)).0
                    &&& *final(fetch) == after_failure(*old(fetch)).1
                } else {
                    &&& r == Step::Done(Err(e))
                    &&& *final(fetch) == *old(fetch)
                },
            },
            match answer {
                Ok(_) => true,
                Err(e) => if old(fetch).attempt + 1 < old(fetch).retries {
                    &&& r == Step::Again((1500 * (old(fetch).attempt + 1)) as u64)
                    &&& final(fetch).attempt == old(fetch).attempt + 1
                } else {
                    &&& r == Step::Done(Err(e))
                    &&& *final(fetch) == *old(fetch)
                },
            },
    {
        match answer {
            Ok(j) => Step::Done(self.read_klines(&j, now_ms)),
            Err(e) => match fetch.on_failure() {
                Some(ms) => Step::Again(ms),
                None => Step::Done(Err(e)),
            },
        }
    }
}

// ---------------------------------------------------------------------------
// Laws
// ---------------------------------------------------------------------------

proof fn lemma_bars_of(f: FeedView, rows: Seq<JsonView>, now_ms: int, n: nat)
    requires
        n <= rows.len(),
    ensures
        forall|i: int|
            #![trigger f.bars_of(rows, now_ms, n)[i]]
            0 <= i < f.bars_of(rows, now_ms, n).len() ==> {
                let b = f.bars_of(rows, now_ms, n)[i];
                &&& f.last is Some ==> b.ts > f.last->0
                &&& (b.ts as int) * 1000 + f.interval_s * 1000 <= now_ms || b.ts <= 0
            },
    decreases n,
{
    if n > 0 {
        lemma_bars_of(f, rows, now_ms, (n - 1) as nat);
        let before = f.bars_of(rows, now_ms, (n - 1) as nat);
        let all = f.bars_of(rows, now_ms, n);
        if let Some(b) = f.bar_of(rows[n - 1], now_ms) {
            let ts_ms = whole_at(rows[n - 1]->List_0, 0);
            assert(i64::MIN <= ts_ms <= i64::MAX);
            assert(b.ts == cut_quotient(ts_ms, 1000));
            assert forall|i: int| #![trigger all[i]] 0 <= i < all.len() implies ({
                &&& f.last is Some ==> all[i].ts > f.last->0
                &&& (all[i].ts as int) * 1000 + f.interval_s * 1000 <= now_ms || all[i].ts <= 0
            }) by {
                if i < before.len() {
                    assert(all[i] == before[i]);
                } else {
                    assert(all[i] == b);
                }
            }
        }
    }
}

/// Only closed bars that are newer than the last one are handed out, the oldest
/// first, so no bar is handed out twice. Times before the epoch are cut to
/// seconds upwards, so of bars up to the epoch it is not said that they are
/// closed.
pub proof fn law_only_new_closed_bars(f: FeedView, rows: Seq<JsonView>, now_ms: int)
    ensures
        ({
            let out = f.new_bars(rows, now_ms);
            &&& forall|i: int, j: int|
                0 <= i <= j < out.len() ==> (#[trigger] out[i]).ts <= (#[trigger] out[j]).ts
            &&& forall|i: int|
                0 <= i < out.len() ==> {
                    &&& f.last is Some ==> (#[trigger] out[i]).ts > f.last->0
                    &&& (out[i].ts as int) * 1000 + f.interval_s * 1000 <= now_ms || out[i].ts <= 0
                }
        }),
{
    let found = f.bars_of(rows, now_ms, rows.len());
    let out = f.new_bars(rows, now_ms);
    profile::law_time_order(found);
    lemma_bars_of(f, rows, now_ms, rows.len());
    assert forall|i: int| 0 <= i < out.len() implies ({
        &&& f.last is Some ==> (#[trigger] out[i]).ts > f.last->0
        &&& (out[i].ts as int) * 1000 + f.interval_s * 1000 <= now_ms || out[i].ts <= 0
    }) by {
        broadcast use vstd::seq_lib::group_to_multiset_ensures;

        assert(out.contains(out[i]));
        assert(out.to_multiset().count(out[i]) > 0);
        assert(found.to_multiset().count(out[i]) > 0);
        assert(found.contains(out[i]));
        let k = choose|k: int| 0 <= k < found.len() && found[k] == out[i];
        assert(f.bars_of(rows, now_ms, rows.len())[k] == out[i]);
    }
}

/// After a poll the next one hands out only bars that are later than all those
/// of this poll, whatever the exchange answers.
pub proof fn law_polls_go_on(
    f: FeedView,
    rows: Seq<JsonView>,
    now_ms: int,
    now: i64,
    next_rows: Seq<JsonView>,
    next_ms: int,
)
    ensures
        ({
            let out = f.new_bars(rows, now_ms);
            let next = f.polled(out, now).new_bars(next_rows, next_ms);
            forall|i: int, j: int|
                0 <= i < out.len() && 0 <= j < next.len() ==> (#[trigger] out[i]).ts < (
                #[trigger] next[j]).ts
        }),
{
    let out = f.new_bars(rows, now_ms);
    let g = f.polled(out, now);
    let next = g.new_bars(next_rows, next_ms);
    law_only_new_closed_bars(f, rows, now_ms);
    law_only_new_closed_bars(g, next_rows, next_ms);
    if out.len() > 0 {
        assert((f.bars + out).last() == out.last());
        assert(g.last == Some(out.last().ts));
        assert forall|i: int, j: int| 0 <= i < out.len() && 0 <= j < next.len() implies (
        #[trigger] out[i]).ts < (#[trigger] next[j]).ts by {
            assert(out[i].ts <= out[out.len() - 1].ts);
            assert(next[j].ts > g.last->0);
        }
    }
}

/// The feed is healthy again as soon as something comes in, and stays so until
/// five things in a row have failed.
pub proof fn law_health_recovers(h: HealthView, now: i64, e: Seq<char>)
    requires
        h.wf(),
    ensures
        h.well(now).healthy(),
        h.polled(now).healthy(),
        h.polled(now).polls == h.polls + 1,
        h.failed(e).healthy() <==> h.consecutive_fails < SICK_AFTER - 1,
        h.failed(e).last_ok_ts == h.last_ok_ts,
        h.failed(e).wf() && h.well(now).wf() && h.polled(now).wf(),
{
}

/// The bars that are kept stay within their bound.
pub proof fn law_bars_bounded(f: FeedView, bars: Seq<Bar>, now: i64)
    requires
        f.bars.len() <= BARS_KEPT,
    ensures
        f.polled(bars, now).bars.len() <= BARS_KEPT,
{
}

} // verus!
