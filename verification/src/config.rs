//! The configuration: what the environment says, and what follows from it.

use crate::decimal;
use crate::double::Double;
use crate::engine;
use crate::engine::{default_ladder, CfgView, StrategyCfg};
use crate::text::same;
use crate::words;
use crate::words::{parse_count, split, to_ascii_small, trim, trim_end};
use vstd::prelude::*;
use vstd::string::*;

verus! {

pub const BYBIT_DEFAULT: &'static str = "https://api.bybit.com";

pub const BINANCE_SPOT_DATA: &'static str = "https://data-api.binance.vision";

pub const BINANCE_FUT_DATA: &'static str = "https://fapi.binance.com";

pub const BINANCE_FUT_TESTNET: &'static str = "https://testnet.binancefuture.com";

pub const BINANCE_FUT_MAINNET: &'static str = "https://fapi.binance.com";

pub const BINANCE_SPOT_TESTNET: &'static str = "https://testnet.binance.vision";

pub const BINANCE_SPOT_MAINNET: &'static str = "https://api.binance.com";

/// The configuration.
#[derive(Debug)]
pub struct Config {
    /// `auto`, `paper`, `testnet` or `live`.
    pub mode: String,
    /// Where orders go: `spot` or `futures`.
    pub venue: String,
    /// Where data comes from: `bybit`, `spot` or `futures`.
    pub data_venue: String,
    pub symbol: String,
    /// Whether stops and targets fill on touch.
    pub sl_touch: bool,
    pub fee_maker_pct: Double,
    pub fee_taker_pct: Double,
    pub sl_slip_pct: Double,
    /// Whether every position has the notional `position_usd`.
    pub legacy_sizing: bool,
    pub position_usd: Double,
    pub risk_pct: Double,
    pub leverage_cap: Double,
    pub rr: Double,
    pub skip_hour0: bool,
    pub trail_on: bool,
    pub ladder: Vec<(Double, Double)>,
    pub same_bar: bool,
    pub poll_s: Double,
    pub tick_s: Double,
    pub port: u16,
    pub host: String,
    pub paper_start_usdt: Double,
    pub bybit_base: String,
    pub api_key: String,
    pub api_secret: String,
    pub testnet: bool,
    pub live_ack: bool,
    pub dry_run: bool,
    pub feed: String,
}

/// What the configuration says.
pub struct ConfigView {
    pub mode: Seq<char>,
    pub venue: Seq<char>,
    pub data_venue: Seq<char>,
    pub symbol: Seq<char>,
    pub sl_touch: bool,
    pub fee_maker_pct: Double,
    pub fee_taker_pct: Double,
    pub sl_slip_pct: Double,
    pub legacy_sizing: bool,
    pub position_usd: Double,
    pub risk_pct: Double,
    pub leverage_cap: Double,
    pub rr: Double,
    pub skip_hour0: bool,
    pub trail_on: bool,
    pub ladder: Seq<(Double, Double)>,
    pub same_bar: bool,
    pub poll_s: Double,
    pub tick_s: Double,
    pub port: u16,
    pub host: Seq<char>,
    pub paper_start_usdt: Double,
    pub bybit_base: Seq<char>,
    pub api_key: Seq<char>,
    pub api_secret: Seq<char>,
    pub testnet: bool,
    pub live_ack: bool,
    pub dry_run: bool,
    pub feed: Seq<char>,
}

impl View for Config {
    type V = ConfigView;

    open spec fn view(&self) -> ConfigView {
        ConfigView {
            mode: self.mode@,
            venue: self.venue@,
            data_venue: self.data_venue@,
            symbol: self.symbol@,
            sl_touch: self.sl_touch,
            fee_maker_pct: self.fee_maker_pct,
            fee_taker_pct: self.fee_taker_pct,
            sl_slip_pct: self.sl_slip_pct,
            legacy_sizing: self.legacy_sizing,
            position_usd: self.position_usd,
            risk_pct: self.risk_pct,
            leverage_cap: self.leverage_cap,
            rr: self.rr,
            skip_hour0: self.skip_hour0,
            trail_on: self.trail_on,
            ladder: self.ladder@,
            same_bar: self.same_bar,
            poll_s: self.poll_s,
            tick_s: self.tick_s,
            port: self.port,
            host: self.host@,
            paper_start_usdt: self.paper_start_usdt,
            bybit_base: self.bybit_base@,
            api_key: self.api_key@,
            api_secret: self.api_secret@,
            testnet: self.testnet,
            live_ack: self.live_ack,
            dry_run: self.dry_run,
            feed: self.feed@,
        }
    }
}

// ---------------------------------------------------------------------------
// The environment
// ---------------------------------------------------------------------------

/// The variables of an environment: names and values.
pub type Vars = Vec<(String, String)>;

/// What the variables of an environment say.
pub open spec fn vars_view(v: Seq<(String, String)>) -> Seq<(Seq<char>, Seq<char>)> {
    v.map_values(|p: (String, String)| (p.0@, p.1@))
}

/// The value of a variable, from the position `i` on.
pub open spec fn value_from(
    vars: Seq<(Seq<char>, Seq<char>)>,
    name: Seq<char>,
    i: int,
) -> Option<Seq<char>>
    decreases vars.len() - i,
{
    if i < 0 || i >= vars.len() {
        None
    } else if vars[i].0 == name {
        Some(vars[i].1)
    } else {
        value_from(vars, name, i + 1)
    }
}

/// The value of a variable.
pub open spec fn value_of(vars: Seq<(Seq<char>, Seq<char>)>, name: Seq<char>) -> Option<Seq<char>> {
    value_from(vars, name, 0)
}

/// The value of a variable, or another text where it is not set or empty.
pub open spec fn text_or(
    vars: Seq<(Seq<char>, Seq<char>)>,
    name: Seq<char>,
    other: Seq<char>,
) -> Seq<char> {
    match value_of(vars, name) {
        Some(v) => if v.len() > 0 {
            v
        } else {
            other
        },
        None => other,
    }
}

/// The number of a variable, or another one where it is not set or no number.
pub open spec fn number_or(
    vars: Seq<(Seq<char>, Seq<char>)>,
    name: Seq<char>,
    other: Double,
) -> Double {
    match value_of(vars, name) {
        Some(v) => match decimal::parsed(v) {
            Some(x) => x,
            None => other,
        },
        None => other,
    }
}

/// Whether a text switches something on.
pub open spec fn switches_on(v: Seq<char>) -> bool {
    let w = words::ascii_small(words::trimmed(v));
    w == "1"@ || w == "true"@ || w == "yes"@ || w == "on"@
}

/// Whether a variable switches something on; `other` where it is not set.
pub open spec fn flag_or(vars: Seq<(Seq<char>, Seq<char>)>, name: Seq<char>, other: bool) -> bool {
    match value_of(vars, name) {
        Some(v) => switches_on(v),
        None => other,
    }
}

/// Whether orders are only played through: always, but where the variable says
/// `0`.
pub open spec fn plays_dry(vars: Seq<(Seq<char>, Seq<char>)>, name: Seq<char>) -> bool {
    match value_of(vars, name) {
        Some(v) => words::trimmed(v) != "0"@,
        None => true,
    }
}

/// The port of a variable, or another one where it is not set or no port.
pub open spec fn port_or(vars: Seq<(Seq<char>, Seq<char>)>, name: Seq<char>, other: u16) -> u16 {
    match value_of(vars, name) {
        Some(v) => match words::count_within(v, 65535) {
            Some(n) => n as u16,
            None => other,
        },
        None => other,
    }
}

/// What the environment says of a key or a secret: that for the test network
/// goes before the other.
pub open spec fn credential(
    vars: Seq<(Seq<char>, Seq<char>)>,
    testnet: Seq<char>,
    name: Seq<char>,
) -> Seq<char> {
    match value_of(vars, testnet) {
        Some(v) => v,
        None => text_or(vars, name, seq![]),
    }
}

/// The rung that a part of the ladder's text writes, if it writes one: a
/// progress and what it earns, with a colon between.
pub open spec fn rung_of(part: Seq<char>) -> Option<(Double, Double)> {
    let t = words::trimmed(part);
    let fields = words::parts(t, ':');
    if t.len() == 0 || fields.len() < 2 {
        None
    } else {
        match (
            decimal::parsed(words::trimmed(fields[0])),
            decimal::parsed(words::trimmed(fields[1])),
        ) {
            (Some(a), Some(b)) => Some((a, b)),
            _ => None,
        }
    }
}

/// The rungs that the first `n` parts write.
pub open spec fn rungs_of(parts: Seq<Seq<char>>, n: nat) -> Seq<(Double, Double)>
    decreases n,
{
    if n == 0 {
        seq![]
    } else {
        let before = rungs_of(parts, (n - 1) as nat);
        match rung_of(parts[n - 1]) {
            Some(r) => before.push(r),
            None => before,
        }
    }
}

/// Where a rung belongs among ordered ones: behind all that are not beyond it.
pub open spec fn rung_place(s: Seq<(Double, Double)>, x: (Double, Double), i: nat) -> nat
    decreases i,
{
    if i > 0 && x.0.below(s[i - 1].0) {
        rung_place(s, x, (i - 1) as nat)
    } else {
        i
    }
}

/// The rungs ordered by progress; those of the same progress stay in place.
pub open spec fn ordered_rungs(s: Seq<(Double, Double)>) -> Seq<(Double, Double)>
    decreases s.len(),
{
    if s.len() == 0 {
        seq![]
    } else {
        let before = ordered_rungs(s.drop_last());
        before.insert(rung_place(before, s.last(), before.len()) as int, s.last())
    }
}

/// Whether all progresses are numbers.
pub open spec fn comparable(s: Seq<(Double, Double)>) -> bool {
    forall|i: int| 0 <= i < s.len() ==> !(#[trigger] s[i]).0.nan()
}

/// The ladder that a text writes: its rungs in order, or the usual ones where
/// it has none. There is no ladder where several rungs cannot be ordered.
pub open spec fn ladder_of(s: Seq<char>) -> Option<Seq<(Double, Double)>> {
    let p = words::parts(s, ',');
    let rungs = rungs_of(p, p.len());
    if rungs.len() == 0 {
        Some(engine::default_rungs())
    } else if rungs.len() > 1 && !comparable(rungs) {
        None
    } else {
        Some(ordered_rungs(rungs))
    }
}

/// The configuration that an environment asks for; none where the ladder cannot
/// be ordered.
pub open spec fn configured(vars: Seq<(Seq<char>, Seq<char>)>) -> Option<ConfigView> {
    match ladder_of(text_or(vars, "TRAIL_LADDER"@, seq![])) {
        None => None,
        Some(ladder) => Some(
            ConfigView {
                mode: text_or(vars, "MODE"@, "auto"@),
                venue: words::lowercase(text_or(vars, "VENUE"@, "spot"@)),
                data_venue: words::lowercase(text_or(vars, "DATA_VENUE"@, "auto"@)),
                symbol: words::uppercase(text_or(vars, "SYMBOL"@, "PAXGUSDT"@)),
                sl_touch: words::lowercase(text_or(vars, "SL_MODE"@, "touch"@)) != "close"@,
                fee_maker_pct: number_or(vars, "FEE_MAKER_PCT"@, Double::ratio(2, 100)),
                fee_taker_pct: number_or(vars, "FEE_TAKER_PCT"@, Double::ratio(55, 1000)),
                sl_slip_pct: number_or(vars, "SL_SLIP_PCT"@, Double { bits: 0 }),
                legacy_sizing: flag_or(vars, "LEGACY_SIZING"@, false),
                position_usd: number_or(vars, "POSITION_USD"@, Double::whole(100)),
                risk_pct: number_or(vars, "RISK_PCT"@, Double::ratio(1, 2)),
                leverage_cap: number_or(vars, "LEVERAGE_CAP"@, Double::whole(3)),
                rr: number_or(vars, "RR"@, Double::whole(2)),
                skip_hour0: flag_or(vars, "SKIP_HOUR0"@, true),
                trail_on: flag_or(vars, "TRAIL"@, true),
                ladder,
                same_bar: flag_or(vars, "SAME_BAR"@, true),
                poll_s: number_or(vars, "POLL_S"@, Double::whole(5)),
                tick_s: number_or(vars, "TICK_S"@, Double::whole(1)),
                port: port_or(vars, "PORT"@, 8765),
                host: text_or(vars, "HOST"@, "0.0.0.0"@),
                paper_start_usdt: number_or(vars, "PAPER_START_USDT"@, Double::whole(10000)),
                bybit_base: words::without_trailing(
                    text_or(vars, "BYBIT_BASE"@, BYBIT_DEFAULT@),
                    '/',
                ),
                api_key: credential(vars, "BINANCE_TESTNET_API_KEY"@, "BINANCE_API_KEY"@),
                api_secret: credential(vars, "BINANCE_TESTNET_API_SECRET"@, "BINANCE_API_SECRET"@),
                testnet: flag_or(vars, "BINANCE_TESTNET"@, false) || value_of(
                    vars,
                    "BINANCE_TESTNET_API_KEY"@,
                ) is Some || value_of(vars, "BINANCE_TESTNET_API_SECRET"@) is Some,
                live_ack: match value_of(vars, "BINANCE_LIVE_ACK"@) {
                    Some(v) => words::lowercase(v) == "yes"@,
                    None => false,
                },
                dry_run: plays_dry(vars, "BINANCE_DRY_RUN"@),
                feed: words::lowercase(text_or(vars, "FEED"@, "rest"@)),
            },
        ),
    }
}

/// The value of a variable.
fn lookup(vars: &Vars, name: &str) -> (r: Option<String>)
    ensures
        match value_of(vars_view(vars@), name@) {
            Some(v) => r matches Some(x) && x@ == v,
            None => r is None,
        },
{
    let mut i: usize = 0;
    while i < vars.len()
        invariant
            i <= vars@.len(),
            value_of(vars_view(vars@), name@) == value_from(vars_view(vars@), name@, i as int),
        decreases vars@.len() - i,
    {
        if same(vars[i].0.as_str(), name) {
            return Some(vars[i].1.clone());
        }
        i = i + 1;
    }
    None
}

fn lookup_text(vars: &Vars, name: &str, other: &str) -> (r: String)
    ensures
        r@ == text_or(vars_view(vars@), name@, other@),
{
    match lookup(vars, name) {
        Some(v) => if v.as_str().is_empty() {
            other.to_owned()
        } else {
            v
        },
        None => other.to_owned(),
    }
}

fn lookup_number(vars: &Vars, name: &str, other: Double) -> (r: Double)
    ensures
        r == number_or(vars_view(vars@), name@, other),
{
    match lookup(vars, name) {
        Some(v) => match Double::parse(v.as_str()) {
            Some(x) => x,
            None => other,
        },
        None => other,
    }
}

fn lookup_flag(vars: &Vars, name: &str, other: bool) -> (r: bool)
    ensures
        r == flag_or(vars_view(vars@), name@, other),
{
    match lookup(vars, name) {
        Some(v) => {
            let w: String = to_ascii_small(trim(v.as_str()).as_str());
            same(w.as_str(), "1") || same(w.as_str(), "true") || same(w.as_str(), "yes") || same(
                w.as_str(),
                "on",
            )
        },
        None => other,
    }
}

fn lookup_dry(vars: &Vars, name: &str) -> (r: bool)
    ensures
        r == plays_dry(vars_view(vars@), name@),
{
    match lookup(vars, name) {
        Some(v) => !same(trim(v.as_str()).as_str(), "0"),
        None => true,
    }
}

fn lookup_port(vars: &Vars, name: &str, other: u16) -> (r: u16)
    ensures
        r == port_or(vars_view(vars@), name@, other),
{
    match lookup(vars, name) {
        Some(v) => match parse_count(v.as_str(), 65535) {
            Some(n) => n as u16,
            None => other,
        },
        None => other,
    }
}

fn lookup_credential(vars: &Vars, testnet: &str, name: &str) -> (r: String)
    ensures
        r@ == credential(vars_view(vars@), testnet@, name@),
{
    match lookup(vars, testnet) {
        Some(v) => v,
        None => {
            let none: String = String::new();
            let r: String = lookup_text(vars, name, none.as_str());
            assert(none@ =~= seq![]);
            r
        },
    }
}

/// The rung that a part of the ladder's text writes.
fn parse_rung(part: &str) -> (r: Option<(Double, Double)>)
    ensures
        r == rung_of(part@),
{
    let t: String = trim(part);
    if t.as_str().is_empty() {
        return None;
    }
    let fields: Vec<String> = split(t.as_str(), ':');
    let ghost fv = words::texts(fields@);
    assert(fv.len() == fields@.len());
    if fields.len() < 2 {
        return None;
    }
    assert(fv[0] == fields@[0]@ && fv[1] == fields@[1]@);
    match (
        Double::parse(trim(fields[0].as_str()).as_str()),
        Double::parse(trim(fields[1].as_str()).as_str()),
    ) {
        (Some(a), Some(b)) => Some((a, b)),
        _ => None,
    }
}

/// Puts a rung among ordered ones.
fn insert_rung(s: &mut Vec<(Double, Double)>, x: (Double, Double))
    ensures
        final(s)@ == old(s)@.insert(
            rung_place(old(s)@, x, old(s)@.len()) as int,
            x,
        ),
{
    let mut i: usize = s.len();
    while i > 0 && x.0.lt(s[i - 1].0)
        invariant
            i <= s@.len(),
            s@ == old(s)@,
            rung_place(s@, x, s@.len()) == rung_place(s@, x, i as nat),
        decreases i,
    {
        i = i - 1;
    }
    s.insert(i, x);
}

/// The ladder that a text writes.
pub fn parse_ladder(s: &str) -> (r: Option<Vec<(Double, Double)>>)
    ensures
        match ladder_of(s@) {
            Some(l) => r matches Some(v) && v@ == l,
            None => r is None,
        },
{
    let tokens: Vec<String> = split(s, ',');
    let ghost p = words::parts(s@, ',');
    let mut out: Vec<(Double, Double)> = Vec::new();
    let mut numbers: bool = true;
    let ghost mut rungs: Seq<(Double, Double)> = seq![];
    let mut i: usize = 0;
    while i < tokens.len()
        invariant
            i <= tokens@.len(),
            words::texts(tokens@) == p,
            p.len() == tokens@.len(),
            rungs == rungs_of(p, i as nat),
            out@ == ordered_rungs(rungs),
            out@.len() == rungs.len(),
            numbers == comparable(rungs),
        decreases tokens@.len() - i,
    {
        assert(p[i as int] == tokens@[i as int]@);
        if let Some(x) = parse_rung(tokens[i].as_str()) {
            let ghost before = rungs;
            proof {
                rungs = rungs.push(x);
                assert(rungs.drop_last() =~= before);
                assert(rungs.last() == x);
                lemma_rung_place(out@, x, out@.len());
                assert(comparable(rungs) == (comparable(before) && !x.0.nan())) by {
                    if comparable(rungs) {
                        assert(rungs[before.len() as int] == x);
                        assert forall|k: int| 0 <= k < before.len() implies !(
                        #[trigger] before[k]).0.nan() by {
                            assert(rungs[k] == before[k]);
                        }
                    }
                }
            }
            insert_rung(&mut out, x);
            numbers = numbers && !x.0.is_nan();
        }
        i = i + 1;
    }
    if out.len() == 0 {
        return Some(default_ladder());
    }
    if out.len() > 1 && !numbers {
        return None;
    }
    Some(out)
}

proof fn lemma_rung_place(s: Seq<(Double, Double)>, x: (Double, Double), i: nat)
    requires
        i <= s.len(),
    ensures
        rung_place(s, x, i) <= i,
    decreases i,
{
    if i > 0 && x.0.below(s[i - 1].0) {
        lemma_rung_place(s, x, (i - 1) as nat);
    }
}

impl Config {
    /// The configuration that an environment asks for; `None` where the ladder
    /// has several rungs that cannot be ordered.
    pub fn from_env(vars: &Vars) -> (r: Option<Config>)
        ensures
            match configured(vars_view(vars@)) {
                Some(c) => r matches Some(x) && x@ == c,
                None => r is None,
            },
    {
        let none: String = String::new();
        assert(none@ =~= seq![]);
        let ladder: Vec<(Double, Double)> = match parse_ladder(
            lookup_text(vars, "TRAIL_LADDER", none.as_str()).as_str(),
        ) {
            Some(l) => l,
            None => {
                return None;
            },
        };
        let testnet_keys: bool = lookup(vars, "BINANCE_TESTNET_API_KEY").is_some() || lookup(
            vars,
            "BINANCE_TESTNET_API_SECRET",
        ).is_some();
        let live_ack: bool = match lookup(vars, "BINANCE_LIVE_ACK") {
            Some(v) => same(v.as_str().to_lowercase().as_str(), "yes"),
            None => false,
        };
        let sl_mode: String = lookup_text(vars, "SL_MODE", "touch").as_str().to_lowercase();
        Some(
            Config {
                mode: lookup_text(vars, "MODE", "auto"),
                venue: lookup_text(vars, "VENUE", "spot").as_str().to_lowercase(),
                data_venue: lookup_text(vars, "DATA_VENUE", "auto").as_str().to_lowercase(),
                symbol: lookup_text(vars, "SYMBOL", "PAXGUSDT").as_str().to_uppercase(),
                sl_touch: !same(sl_mode.as_str(), "close"),
                fee_maker_pct: lookup_number(vars, "FEE_MAKER_PCT", Double::from_ratio(2, 100)),
                fee_taker_pct: lookup_number(vars, "FEE_TAKER_PCT", Double::from_ratio(55, 1000)),
                sl_slip_pct: lookup_number(vars, "SL_SLIP_PCT", Double { bits: 0 }),
                legacy_sizing: lookup_flag(vars, "LEGACY_SIZING", false),
                position_usd: lookup_number(vars, "POSITION_USD", Double::from_u64(100)),
                risk_pct: lookup_number(vars, "RISK_PCT", Double::from_ratio(1, 2)),
                leverage_cap: lookup_number(vars, "LEVERAGE_CAP", Double::from_u64(3)),
                rr: lookup_number(vars, "RR", Double::from_u64(2)),
                skip_hour0: lookup_flag(vars, "SKIP_HOUR0", true),
                trail_on: lookup_flag(vars, "TRAIL", true),
                ladder,
                same_bar: lookup_flag(vars, "SAME_BAR", true),
                poll_s: lookup_number(vars, "POLL_S", Double::from_u64(5)),
                tick_s: lookup_number(vars, "TICK_S", Double::from_u64(1)),
                port: lookup_port(vars, "PORT", 8765),
                host: lookup_text(vars, "HOST", "0.0.0.0"),
                paper_start_usdt: lookup_number(
                    vars,
                    "PAPER_START_USDT",
                    Double::from_u64(10000),
                ),
                bybit_base: trim_end(
                    lookup_text(vars, "BYBIT_BASE", BYBIT_DEFAULT).as_str(),
                    '/',
                ),
                api_key: lookup_credential(vars, "BINANCE_TESTNET_API_KEY", "BINANCE_API_KEY"),
                api_secret: lookup_credential(
                    vars,
                    "BINANCE_TESTNET_API_SECRET",
                    "BINANCE_API_SECRET",
                ),
                testnet: lookup_flag(vars, "BINANCE_TESTNET", false) || testnet_keys,
                live_ack,
                dry_run: lookup_dry(vars, "BINANCE_DRY_RUN"),
                feed: lookup_text(vars, "FEED", "rest").as_str().to_lowercase(),
            },
        )
    }
}

// ---------------------------------------------------------------------------
// What follows
// ---------------------------------------------------------------------------

impl ConfigView {
    /// The mode that holds: the one that is asked for, which is live only with
    /// the consent to it; or else live where there are keys and the consent, the
    /// test network where it is asked for, and paper otherwise.
    pub open spec fn mode_text(self) -> Seq<char> {
        let m = words::lowercase(self.mode);
        if m == "paper"@ || m == "testnet"@ || (m == "live"@ && self.live_ack) {
            m
        } else if self.api_key.len() > 0 && self.api_secret.len() > 0 && self.live_ack {
            "live"@
        } else if self.testnet {
            "testnet"@
        } else {
            "paper"@
        }
    }

    /// Whether the mode is one that trades.
    pub open spec fn trades(self) -> bool {
        self.mode_text() == "live"@ || self.mode_text() == "testnet"@
    }

    /// Whether orders may be sent.
    pub open spec fn may_order(self) -> bool {
        self.trades() && !self.dry_run
    }

    /// The mode as it is shown.
    pub open spec fn shown_mode(self) -> Seq<char> {
        if self.dry_run && self.trades() {
            self.mode_text() + " (dry-run)"@
        } else {
            self.mode_text()
        }
    }

    /// Where data comes from.
    pub open spec fn data_source(self) -> Seq<char> {
        if self.data_venue == "bybit"@ || self.data_venue == "spot"@ || self.data_venue
            == "futures"@ {
            self.data_venue
        } else if self.venue == "futures"@ {
            "futures"@
        } else {
            "spot"@
        }
    }

    /// Where orders go.
    pub open spec fn order_url(self) -> Seq<char> {
        if self.venue == "futures"@ {
            if self.mode_text() == "live"@ {
                BINANCE_FUT_MAINNET@
            } else {
                BINANCE_FUT_TESTNET@
            }
        } else if self.mode_text() == "live"@ {
            BINANCE_SPOT_MAINNET@
        } else {
            BINANCE_SPOT_TESTNET@
        }
    }

    /// Where data comes from, in words.
    pub open spec fn source_text(self) -> Seq<char> {
        if self.data_source() == "bybit"@ {
            self.symbol + " live via Bybit public REST klines (15m, poll)"@
        } else {
            self.symbol + " live via Binance "@ + self.data_source() + " REST klines (15m, poll)"@
        }
    }
}

/// The same rungs once more.
pub fn copy_ladder(v: &Vec<(Double, Double)>) -> (r: Vec<(Double, Double)>)
    ensures
        r@ == v@,
{
    let mut out: Vec<(Double, Double)> = Vec::new();
    let mut i: usize = 0;
    assert(v@.take(0) =~= seq![]);
    while i < v.len()
        invariant
            i <= v@.len(),
            out@ == v@.take(i as int),
        decreases v@.len() - i,
    {
        out.push(v[i]);
        i = i + 1;
        assert(v@.take(i as int) =~= v@.take(i - 1).push(v@[i - 1]));
    }
    assert(v@.take(i as int) =~= v@);
    out
}

impl Clone for Config {
    fn clone(&self) -> (r: Config)
        ensures
            r@ == self@,
    {
        Config {
            mode: self.mode.clone(),
            venue: self.venue.clone(),
            data_venue: self.data_venue.clone(),
            symbol: self.symbol.clone(),
            sl_touch: self.sl_touch,
            fee_maker_pct: self.fee_maker_pct,
            fee_taker_pct: self.fee_taker_pct,
            sl_slip_pct: self.sl_slip_pct,
            legacy_sizing: self.legacy_sizing,
            position_usd: self.position_usd,
            risk_pct: self.risk_pct,
            leverage_cap: self.leverage_cap,
            rr: self.rr,
            skip_hour0: self.skip_hour0,
            trail_on: self.trail_on,
            ladder: copy_ladder(&self.ladder),
            same_bar: self.same_bar,
            poll_s: self.poll_s,
            tick_s: self.tick_s,
            port: self.port,
            host: self.host.clone(),
            paper_start_usdt: self.paper_start_usdt,
            bybit_base: self.bybit_base.clone(),
            api_key: self.api_key.clone(),
            api_secret: self.api_secret.clone(),
            testnet: self.testnet,
            live_ack: self.live_ack,
            dry_run: self.dry_run,
            feed: self.feed.clone(),
        }
    }
}

impl Config {
    /// The mode that holds: `paper`, `testnet` or `live`.
    pub fn resolved_mode(&self) -> (r: String)
        ensures
            r@ == self@.mode_text(),
    {
        let m: String = self.mode.as_str().to_lowercase();
        if same(m.as_str(), "paper") || same(m.as_str(), "testnet") || (same(m.as_str(), "live")
            && self.live_ack) {
            return m;
        }
        if !self.api_key.as_str().is_empty() && !self.api_secret.as_str().is_empty()
            && self.live_ack {
            return "live".to_owned();
        }
        if self.testnet {
            return "testnet".to_owned();
        }
        "paper".to_owned()
    }

    /// Whether orders may be sent.
    pub fn tradable(&self) -> (r: bool)
        ensures
            r == self@.may_order(),
    {
        let m: String = self.resolved_mode();
        (same(m.as_str(), "live") || same(m.as_str(), "testnet")) && !self.dry_run
    }

    /// The mode as it is shown.
    pub fn display_mode(&self) -> (r: String)
        ensures
            r@ == self@.shown_mode(),
    {
        let m: String = self.resolved_mode();
        if self.dry_run && (same(m.as_str(), "live") || same(m.as_str(), "testnet")) {
            m.concat(" (dry-run)")
        } else {
            m
        }
    }

    /// Where data comes from: `bybit`, `spot` or `futures`.
    pub fn resolved_data_venue(&self) -> (r: String)
        ensures
            r@ == self@.data_source(),
    {
        let v: &str = self.data_venue.as_str();
        if same(v, "bybit") || same(v, "spot") || same(v, "futures") {
            self.data_venue.clone()
        } else if same(self.venue.as_str(), "futures") {
            "futures".to_owned()
        } else {
            "spot".to_owned()
        }
    }

    /// Where orders go.
    pub fn order_base(&self) -> (r: String)
        ensures
            r@ == self@.order_url(),
    {
        let m: String = self.resolved_mode();
        let live: bool = same(m.as_str(), "live");
        if same(self.venue.as_str(), "futures") {
            if live {
                BINANCE_FUT_MAINNET.to_owned()
            } else {
                BINANCE_FUT_TESTNET.to_owned()
            }
        } else if live {
            BINANCE_SPOT_MAINNET.to_owned()
        } else {
            BINANCE_SPOT_TESTNET.to_owned()
        }
    }

    /// Where data comes from, in words.
    pub fn source_label(&self) -> (r: String)
        ensures
            r@ == self@.source_text(),
    {
        let v: String = self.resolved_data_venue();
        if same(v.as_str(), "bybit") {
            self.symbol.clone().concat(" live via Bybit public REST klines (15m, poll)")
        } else {
            self.symbol.clone().concat(" live via Binance ").concat(v.as_str()).concat(
                " REST klines (15m, poll)",
            )
        }
    }

    /// What the engine is set to.
    pub fn strategy_cfg(&self) -> (r: StrategyCfg)
        ensures
            r@ == self@.strategy(),
    {
        StrategyCfg {
            rr: self.rr,
            skip_hour0: self.skip_hour0,
            trail_on: self.trail_on,
            ladder: copy_ladder(&self.ladder),
            same_bar_exits: self.same_bar,
            sl_touch: self.sl_touch,
        }
    }
}

impl ConfigView {
    /// What the engine is set to.
    pub open spec fn strategy(self) -> CfgView {
        CfgView {
            rr: self.rr,
            skip_hour0: self.skip_hour0,
            trail_on: self.trail_on,
            ladder: self.ladder,
            same_bar_exits: self.same_bar,
            sl_touch: self.sl_touch,
        }
    }
}

// ---------------------------------------------------------------------------
// What is printed at the start
// ---------------------------------------------------------------------------

/// Numbers of the configuration as they are printed in full.
pub struct Shown {
    pub rr: String,
    pub ladder: String,
    pub position_usd: String,
    pub poll_s: String,
    pub tick_s: String,
}

/// What the shown numbers say.
pub struct ShownView {
    pub rr: Seq<char>,
    pub ladder: Seq<char>,
    pub position_usd: Seq<char>,
    pub poll_s: Seq<char>,
    pub tick_s: Seq<char>,
}

impl View for Shown {
    type V = ShownView;

    open spec fn view(&self) -> ShownView {
        ShownView {
            rr: self.rr@,
            ladder: self.ladder@,
            position_usd: self.position_usd@,
            poll_s: self.poll_s@,
            tick_s: self.tick_s@,
        }
    }
}

/// A choice as it is printed.
pub open spec fn yes_no(b: bool) -> Seq<char> {
    if b {
        "true"@
    } else {
        "false"@
    }
}

fn yes_no_text(b: bool) -> (r: &'static str)
    ensures
        r@ == yes_no(b),
{
    if b {
        "true"
    } else {
        "false"
    }
}

/// The line above and below the settings.
pub open spec fn rule() -> Seq<char> {
    "===================================================================="@
}

impl ConfigView {
    /// A sign for the mode.
    pub open spec fn icon(self) -> Seq<char> {
        if self.mode_text() == "paper"@ {
            "\u{1f9fe}"@
        } else if self.mode_text() == "testnet"@ {
            "\u{1f6e1}"@
        } else {
            "\u{1f534}"@
        }
    }

    pub open spec fn title_line(self) -> Seq<char> {
        "  "@ + self.icon() + " FRVP live trader v2 (Rust)   mode = "@ + words::uppercase(
            self.shown_mode(),
        )
    }

    pub open spec fn data_line(self) -> Seq<char> {
        "     data     : "@ + self.source_text() + " ("@ + self.data_source() + ")"@
    }

    pub open spec fn orders_line(self) -> Seq<char> {
        if self.mode_text() != "paper"@ {
            "     orders   -> "@ + self.order_url() + " (venue="@ + self.venue + ", dry-run="@
                + yes_no(self.dry_run) + ")"@
        } else {
            "     paper fills (no exchange orders). Set MODE/BINANCE_* env to go live."@
        }
    }

    pub open spec fn settings_line(self, shown: ShownView) -> Seq<char> {
        "     settings : RR="@ + shown.rr + "  skip-00:01="@ + yes_no(self.skip_hour0)
            + "  trail="@ + yes_no(self.trail_on) + " "@ + shown.ladder
    }

    pub open spec fn fills_line(self) -> Seq<char> {
        "     fills    : SL_MODE="@ + self.stop_mode() + "  fees maker/taker="@
            + decimal::fixed_text(self.fee_maker_pct, 3) + "/"@ + decimal::fixed_text(
            self.fee_taker_pct,
            3,
        ) + "%  slip="@ + decimal::fixed_text(self.sl_slip_pct, 3) + "%"@
    }

    /// How stops and targets fill, in a word.
    pub open spec fn stop_mode(self) -> Seq<char> {
        if self.sl_touch {
            "touch"@
        } else {
            "close"@
        }
    }

    pub open spec fn sizing_line(self, shown: ShownView) -> Seq<char> {
        if self.legacy_sizing {
            "     sizing   : legacy fixed "@ + shown.position_usd + " USDT notional"@
        } else {
            "     sizing   : risk "@ + decimal::fixed_text(self.risk_pct, 2)
                + "% of equity, notional cap "@ + decimal::fixed_text(self.leverage_cap, 1)
                + "x equity"@
        }
    }

    pub open spec fn runtime_line(self, shown: ShownView) -> Seq<char> {
        "     runtime  : http://"@ + self.host + ":"@ + crate::text::decimal(self.port as nat)
            + "  poll="@ + shown.poll_s + "s tick="@ + shown.tick_s + "s"@
    }

    pub open spec fn polling_note(self) -> Seq<Seq<char>> {
        if self.feed == "ws"@ && self.data_source() != "bybit"@ {
            seq![
                "     note     : FEED=ws requested \u{2014} v2 uses REST polling on all venues (15m strategy)"@,
            ]
        } else {
            seq![]
        }
    }

    pub open spec fn money_note(self) -> Seq<Seq<char>> {
        if self.may_order() && self.venue == "futures"@ && self.mode_text() == "live"@ {
            seq!["     \u{26a0} LIVE REAL MONEY on USDT-M perps \u{2014} leveraged!"@]
        } else {
            seq![]
        }
    }

    /// What is printed at the start, line by line.
    pub open spec fn banner_lines(self, shown: ShownView) -> Seq<Seq<char>> {
        seq![
            rule(),
            self.title_line(),
            self.data_line(),
            self.orders_line(),
            self.settings_line(shown),
            self.fills_line(),
            self.sizing_line(shown),
        ] + self.polling_note() + seq![self.runtime_line(shown)] + self.money_note() + seq![rule()]
    }
}

fn title_of(c: &Config) -> (r: String)
    ensures
        r@ == c@.title_line(),
{
    let m: String = c.resolved_mode();
    let icon: &str = if same(m.as_str(), "paper") {
        "\u{1f9fe}"
    } else if same(m.as_str(), "testnet") {
        "\u{1f6e1}"
    } else {
        "\u{1f534}"
    };
    let mut out: String = "  ".to_owned();
    out.append(icon);
    out.append(" FRVP live trader v2 (Rust)   mode = ");
    out.append(c.display_mode().as_str().to_uppercase().as_str());
    out
}

fn data_of(c: &Config) -> (r: String)
    ensures
        r@ == c@.data_line(),
{
    let mut out: String = "     data     : ".to_owned();
    out.append(c.source_label().as_str());
    out.append(" (");
    out.append(c.resolved_data_venue().as_str());
    out.append(")");
    out
}

fn orders_of(c: &Config) -> (r: String)
    ensures
        r@ == c@.orders_line(),
{
    let m: String = c.resolved_mode();
    if same(m.as_str(), "paper") {
        return "     paper fills (no exchange orders). Set MODE/BINANCE_* env to go live.".to_owned();
    }
    let mut out: String = "     orders   -> ".to_owned();
    out.append(c.order_base().as_str());
    out.append(" (venue=");
    out.append(c.venue.as_str());
    out.append(", dry-run=");
    out.append(yes_no_text(c.dry_run));
    out.append(")");
    out
}

fn settings_of(c: &Config, shown: &Shown) -> (r: String)
    ensures
        r@ == c@.settings_line(shown@),
{
    let mut out: String = "     settings : RR=".to_owned();
    out.append(shown.rr.as_str());
    out.append("  skip-00:01=");
    out.append(yes_no_text(c.skip_hour0));
    out.append("  trail=");
    out.append(yes_no_text(c.trail_on));
    out.append(" ");
    out.append(shown.ladder.as_str());
    out
}

fn fills_of(c: &Config) -> (r: String)
    ensures
        r@ == c@.fills_line(),
{
    let mut out: String = "     fills    : SL_MODE=".to_owned();
    out.append(c.sl_mode());
    out.append("  fees maker/taker=");
    out.append(c.fee_maker_pct.fixed(3).as_str());
    out.append("/");
    out.append(c.fee_taker_pct.fixed(3).as_str());
    out.append("%  slip=");
    out.append(c.sl_slip_pct.fixed(3).as_str());
    out.append("%");
    out
}

fn sizing_of(c: &Config, shown: &Shown) -> (r: String)
    ensures
        r@ == c@.sizing_line(shown@),
{
    if c.legacy_sizing {
        let mut out: String = "     sizing   : legacy fixed ".to_owned();
        out.append(shown.position_usd.as_str());
        out.append(" USDT notional");
        out
    } else {
        let mut out: String = "     sizing   : risk ".to_owned();
        out.append(c.risk_pct.fixed(2).as_str());
        out.append("% of equity, notional cap ");
        out.append(c.leverage_cap.fixed(1).as_str());
        out.append("x equity");
        out
    }
}

fn runtime_of(c: &Config, shown: &Shown) -> (r: String)
    ensures
        r@ == c@.runtime_line(shown@),
{
    let mut out: String = "     runtime  : http://".to_owned();
    out.append(c.host.as_str());
    out.append(":");
    crate::text::push_decimal(&mut out, c.port as u64);
    out.append("  poll=");
    out.append(shown.poll_s.as_str());
    out.append("s tick=");
    out.append(shown.tick_s.as_str());
    out.append("s");
    out
}

impl Config {
    /// How stops and targets fill, in a word.
    pub fn sl_mode(&self) -> (r: &'static str)
        ensures
            r@ == self@.stop_mode(),
    {
        if self.sl_touch {
            "touch"
        } else {
            "close"
        }
    }
}

/// What is printed at the start, line by line.
pub fn banner(c: &Config, shown: &Shown) -> (r: Vec<String>)
    ensures
        words::texts(r@) == c@.banner_lines(shown@),
{
    let mut out: Vec<String> = Vec::new();
    out.push("====================================================================".to_owned());
    out.push(title_of(c));
    out.push(data_of(c));
    out.push(orders_of(c));
    out.push(settings_of(c, shown));
    out.push(fills_of(c));
    out.push(sizing_of(c, shown));
    let v: String = c.resolved_data_venue();
    let m: String = c.resolved_mode();
    let ghost head = words::texts(out@);
    if same(c.feed.as_str(), "ws") && !same(v.as_str(), "bybit") {
        out.push(
            "     note     : FEED=ws requested \u{2014} v2 uses REST polling on all venues (15m strategy)".to_owned(),
        );
    }
    assert(words::texts(out@) =~= head + c@.polling_note());
    out.push(runtime_of(c, shown));
    if c.tradable() && same(c.venue.as_str(), "futures") && same(m.as_str(), "live") {
        out.push(
            "     \u{26a0} LIVE REAL MONEY on USDT-M perps \u{2014} leveraged!".to_owned(),
        );
    }
    out.push("====================================================================".to_owned());
    assert(words::texts(out@) =~= c@.banner_lines(shown@));
    out
}

// ---------------------------------------------------------------------------
// Laws
// ---------------------------------------------------------------------------

/// Orders are sent only where the mode is live or the test network and the dry
/// run is switched off.
pub proof fn law_order_needs_consent(c: ConfigView)
    ensures
        c.may_order() ==> !c.dry_run,
        c.may_order() ==> c.mode_text() == "live"@ || c.mode_text() == "testnet"@,
        c.dry_run ==> !c.may_order(),
{
}

/// The mode is live only with the consent to it, whether it is asked for or
/// left to the configuration. Left to the configuration it takes a key and a
/// secret too.
pub proof fn law_live_needs_consent(c: ConfigView)
    ensures
        c.mode_text() == "live"@ ==> c.live_ack,
        c.mode_text() == "live"@ && words::lowercase(c.mode) != "live"@ ==> {
            &&& c.api_key.len() > 0
            &&& c.api_secret.len() > 0
        },
{
    reveal_strlit("live");
    reveal_strlit("testnet");
    reveal_strlit("paper");
    if c.mode_text() == "live"@ {
        assert("testnet"@.len() == 7 && "paper"@.len() == 5 && "live"@.len() == 4);
    }
}

/// The dry run is on unless the environment says `0` of it, so no other
/// environment sends an order.
pub proof fn law_dry_run_by_default(vars: Seq<(Seq<char>, Seq<char>)>)
    requires
        !(value_of(vars, "BINANCE_DRY_RUN"@) matches Some(v) && words::trimmed(v) == "0"@),
    ensures
        configured(vars) matches Some(c) ==> c.dry_run && !c.may_order(),
{
}

/// Without a word about it the ladder is the usual one.
pub proof fn law_usual_ladder(vars: Seq<(Seq<char>, Seq<char>)>)
    requires
        text_or(vars, "TRAIL_LADDER"@, seq![]).len() == 0,
    ensures
        configured(vars) matches Some(c) && c.ladder == engine::default_rungs(),
{
    let s = text_or(vars, "TRAIL_LADDER"@, seq![]);
    assert(s =~= seq![]);
    let p = words::parts(s, ',');
    assert(s.skip(0) =~= seq![]);
    assert(p =~= seq![Seq::<char>::empty()]);
    assert(words::trimmed(p[0]).len() == 0);
    assert(rung_of(p[0]) is None);
    reveal_with_fuel(rungs_of, 2);
    assert(rungs_of(p, p.len()).len() == 0);
}

/// The ladder of a text is ordered by progress, where all its progresses are
/// numbers.
pub proof fn law_ladder_ordered(s: Seq<(Double, Double)>)
    requires
        comparable(s),
    ensures
        ordered_rungs(s).len() == s.len(),
        ordered_rungs(s).to_multiset() == s.to_multiset(),
        forall|i: int, j: int|
            0 <= i <= j < s.len() ==> (#[trigger] ordered_rungs(s)[i]).0.at_most(
                (#[trigger] ordered_rungs(s)[j]).0,
            ),
    decreases s.len(),
{
    broadcast use vstd::seq_lib::group_to_multiset_ensures;

    let o = ordered_rungs(s);
    if s.len() > 0 {
        let t = s.drop_last();
        let x = s.last();
        assert(comparable(t)) by {
            assert forall|i: int| 0 <= i < t.len() implies !(#[trigger] t[i]).0.nan() by {
                assert(s[i] == t[i]);
            }
        }
        law_ladder_ordered(t);
        let before = ordered_rungs(t);
        let k = rung_place(before, x, before.len());
        assert(!x.0.nan()) by {
            assert(s[s.len() - 1] == x);
        }
        lemma_place_splits(before, x, before.len());
        assert(s =~= t.push(x));
        vstd::seq_lib::to_multiset_insert(before, k as int, x);
        assert(o.to_multiset() == before.to_multiset().insert(x));
        assert(s.to_multiset() == t.to_multiset().insert(x));
        assert forall|i: int, j: int| 0 <= i <= j < o.len() implies (#[trigger] o[i]).0.at_most(
            (#[trigger] o[j]).0,
        ) by {
            let a = if i < k {
                before[i]
            } else if i == k {
                x
            } else {
                before[i - 1]
            };
            let b = if j < k {
                before[j]
            } else if j == k {
                x
            } else {
                before[j - 1]
            };
            assert(o[i] == a && o[j] == b);
            if i < k && j > k {
                assert(before[i].0.at_most(before[j - 1].0));
            }
        }
    } else {
        assert(o =~= s);
    }
}

proof fn lemma_place_splits(s: Seq<(Double, Double)>, x: (Double, Double), n: nat)
    requires
        n <= s.len(),
        comparable(s),
        !x.0.nan(),
        forall|i: int, j: int|
            0 <= i <= j < s.len() ==> (#[trigger] s[i]).0.at_most((#[trigger] s[j]).0),
        forall|i: int| n <= i < s.len() ==> x.0.at_most((#[trigger] s[i]).0),
    ensures
        rung_place(s, x, n) <= n,
        forall|i: int| 0 <= i < rung_place(s, x, n) ==> (#[trigger] s[i]).0.at_most(x.0),
        forall|i: int| rung_place(s, x, n) <= i < s.len() ==> x.0.at_most((#[trigger] s[i]).0),
    decreases n,
{
    if n > 0 && x.0.below(s[n - 1].0) {
        lemma_place_splits(s, x, (n - 1) as nat);
    } else if n > 0 {
        assert forall|i: int| 0 <= i < n implies (#[trigger] s[i]).0.at_most(x.0) by {
            assert(s[i].0.at_most(s[n - 1].0));
        }
    }
}

} // verus!
