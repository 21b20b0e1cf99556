//! What the settings mean: which variable sets what, and what follows from it.

use crate::config;
use crate::config::{ConfigView, ShownView};
use crate::decimal;
use crate::double::Double;
use crate::engine::CfgView;
use crate::rows;
use crate::text;
use crate::words;
use vstd::prelude::*;

verus! {

/// What the variables of an environment say.
pub type Said = Seq<(Seq<char>, Seq<char>)>;

/// The first variable of a name is the one that counts.
pub proof fn law_first_variable_counts(vars: Said, name: Seq<char>, i: int)
    requires
        0 <= i < vars.len(),
        vars[i].0 == name,
        forall|k: int| 0 <= k < i ==> (#[trigger] vars[k]).0 != name,
    ensures
        config::value_of(vars, name) == Some(vars[i].1),
{
    lemma_value_from(vars, name, 0, i);
}

proof fn lemma_value_from(vars: Said, name: Seq<char>, from: int, i: int)
    requires
        0 <= from <= i < vars.len(),
        vars[i].0 == name,
        forall|k: int| 0 <= k < i ==> (#[trigger] vars[k]).0 != name,
    ensures
        config::value_from(vars, name, from) == Some(vars[i].1),
    decreases i - from,
{
    if from < i {
        lemma_value_from(vars, name, from + 1, i);
    }
}

/// A variable that is not there says nothing.
pub proof fn law_missing_variable(vars: Said, name: Seq<char>, from: int)
    requires
        0 <= from <= vars.len(),
        forall|k: int| 0 <= k < vars.len() ==> (#[trigger] vars[k]).0 != name,
    ensures
        config::value_from(vars, name, from) is None,
    decreases vars.len() - from,
{
    if from < vars.len() {
        law_missing_variable(vars, name, from + 1);
    }
}

/// Whether `x` is the number that a variable sets, or `usual` where it sets none.
pub open spec fn sets_number(vars: Said, name: Seq<char>, usual: Double, x: Double) -> bool {
    match config::value_of(vars, name) {
        Some(v) => match decimal::parsed(v) {
            Some(y) => x == y,
            None => x == usual,
        },
        None => x == usual,
    }
}

/// Whether `x` is what a variable switches, or `usual` where it is not set.
pub open spec fn sets_switch(vars: Said, name: Seq<char>, usual: bool, x: bool) -> bool {
    match config::value_of(vars, name) {
        Some(v) => {
            let w = words::ascii_small(words::trimmed(v));
            x == (w == "1"@ || w == "true"@ || w == "yes"@ || w == "on"@)
        },
        None => x == usual,
    }
}

/// The text that a variable sets, or `usual` where it sets none.
pub open spec fn set_text(vars: Said, name: Seq<char>, usual: Seq<char>) -> Seq<char> {
    match config::value_of(vars, name) {
        Some(v) => if v.len() == 0 {
            usual
        } else {
            v
        },
        None => usual,
    }
}

/// Every number of the configuration comes from its own variable, and is the
/// usual one where that sets none: fees of 0.02 and 0.055 percent and no
/// slippage, a risk of half a percent of the equity with at most three times the
/// equity at work, twice the risk as the reward, a poll every five seconds, a
/// price every second, and ten thousand to start with.
pub proof fn law_numbers_are_set(vars: Said)
    ensures
        config::configured(vars) matches Some(c) ==> {
            &&& sets_number(vars, "FEE_MAKER_PCT"@, Double::ratio(2, 100), c.fee_maker_pct)
            &&& sets_number(vars, "FEE_TAKER_PCT"@, Double::ratio(55, 1000), c.fee_taker_pct)
            &&& sets_number(vars, "SL_SLIP_PCT"@, Double { bits: 0 }, c.sl_slip_pct)
            &&& sets_number(vars, "POSITION_USD"@, Double::whole(100), c.position_usd)
            &&& sets_number(vars, "RISK_PCT"@, Double::ratio(1, 2), c.risk_pct)
            &&& sets_number(vars, "LEVERAGE_CAP"@, Double::whole(3), c.leverage_cap)
            &&& sets_number(vars, "RR"@, Double::whole(2), c.rr)
            &&& sets_number(vars, "POLL_S"@, Double::whole(5), c.poll_s)
            &&& sets_number(vars, "TICK_S"@, Double::whole(1), c.tick_s)
            &&& sets_number(vars, "PAPER_START_USDT"@, Double::whole(10_000), c.paper_start_usdt)
        },
{
}

/// Every switch of the configuration comes from its own variable.
pub proof fn law_switches_are_set(vars: Said)
    ensures
        config::configured(vars) matches Some(c) ==> {
            &&& sets_switch(vars, "LEGACY_SIZING"@, false, c.legacy_sizing)
            &&& sets_switch(vars, "SKIP_HOUR0"@, true, c.skip_hour0)
            &&& sets_switch(vars, "TRAIL"@, true, c.trail_on)
            &&& sets_switch(vars, "SAME_BAR"@, true, c.same_bar)
            &&& c.sl_touch == (words::lowercase(set_text(vars, "SL_MODE"@, "touch"@)) != "close"@)
            &&& c.dry_run == !(config::value_of(vars, "BINANCE_DRY_RUN"@) matches Some(v)
                && words::trimmed(v) == "0"@)
            &&& c.live_ack == (config::value_of(vars, "BINANCE_LIVE_ACK"@) matches Some(v)
                && words::lowercase(v) == "yes"@)
            &&& c.testnet == (config::value_of(vars, "BINANCE_TESTNET_API_KEY"@) is Some
                || config::value_of(vars, "BINANCE_TESTNET_API_SECRET"@) is Some || (
            config::value_of(vars, "BINANCE_TESTNET"@) matches Some(v) && config::switches_on(v)))
        },
{
}

/// Every text of the configuration comes from its own variable. A key or a secret
/// for the test network goes before the other.
pub proof fn law_texts_are_set(vars: Said)
    ensures
        config::configured(vars) matches Some(c) ==> {
            &&& c.mode == set_text(vars, "MODE"@, "auto"@)
            &&& c.venue == words::lowercase(set_text(vars, "VENUE"@, "spot"@))
            &&& c.data_venue == words::lowercase(set_text(vars, "DATA_VENUE"@, "auto"@))
            &&& c.symbol == words::uppercase(set_text(vars, "SYMBOL"@, "PAXGUSDT"@))
            &&& c.host == set_text(vars, "HOST"@, "0.0.0.0"@)
            &&& c.feed == words::lowercase(set_text(vars, "FEED"@, "rest"@))
            &&& c.bybit_base == words::without_trailing(
                set_text(vars, "BYBIT_BASE"@, "https://api.bybit.com"@),
                '/',
            )
            &&& c.api_key == match config::value_of(vars, "BINANCE_TESTNET_API_KEY"@) {
                Some(v) => v,
                None => set_text(vars, "BINANCE_API_KEY"@, seq![]),
            }
            &&& c.api_secret == match config::value_of(vars, "BINANCE_TESTNET_API_SECRET"@) {
                Some(v) => v,
                None => set_text(vars, "BINANCE_API_SECRET"@, seq![]),
            }
            &&& c.port == match config::value_of(vars, "PORT"@) {
                Some(v) => match words::count_within(v, 65535) {
                    Some(n) => n,
                    None => 8765,
                },
                None => 8765,
            }
        },
{
    if let Some(v) = config::value_of(vars, "PORT"@) {
        if let Some(n) = words::count_within(v, 65535) {
            assert(0 <= n <= 65535);
        }
    }
}

/// Whether a text switches something on.
pub proof fn law_what_switches_on(v: Seq<char>)
    ensures
        ({
            let w = words::ascii_small(words::trimmed(v));
            config::switches_on(v) == (w == "1"@ || w == "true"@ || w == "yes"@ || w == "on"@)
        }),
{
}

/// The engine trades as the configuration says, each setting in its place.
pub proof fn law_engine_of_a_configuration(c: ConfigView)
    ensures
        c.strategy() == (CfgView {
            rr: c.rr,
            skip_hour0: c.skip_hour0,
            trail_on: c.trail_on,
            ladder: c.ladder,
            same_bar_exits: c.same_bar,
            sl_touch: c.sl_touch,
        }),
{
}

/// A rung of the ladder is written as a progress and what it earns, with a colon
/// between.
pub proof fn law_rung_is_written(a: Seq<char>, b: Seq<char>, x: Double, y: Double)
    requires
        !a.contains(':'),
        !b.contains(':'),
        decimal::parsed(words::trimmed(a)) == Some(x),
        decimal::parsed(words::trimmed(b)) == Some(y),
        words::trimmed(a + seq![':'] + b) == a + seq![':'] + b,
    ensures
        config::rung_of(a + seq![':'] + b) == Some((x, y)),
{
    rows::lemma_first_part(a, ':', b);
    rows::lemma_only_part(b, ':');
}

/// A ladder of two rungs is read as these two, in the order of their progress.
pub proof fn law_ladder_is_written(p: Seq<char>, q: Seq<char>, r: (Double, Double), s: (
    Double,
    Double,
))
    requires
        !p.contains(','),
        !q.contains(','),
        config::rung_of(p) == Some(r),
        config::rung_of(q) == Some(s),
        r.0.below(s.0),
    ensures
        config::ladder_of(p + seq![','] + q) == Some(seq![r, s]),
        config::ladder_of(q + seq![','] + p) == Some(seq![r, s]),
{
    rows::lemma_first_part(p, ',', q);
    rows::lemma_only_part(q, ',');
    rows::lemma_first_part(q, ',', p);
    rows::lemma_only_part(p, ',');
    let a = words::parts(p + seq![','] + q, ',');
    let b = words::parts(q + seq![','] + p, ',');
    assert(a =~= seq![p, q]);
    assert(b =~= seq![q, p]);
    reveal_with_fuel(config::rungs_of, 3);
    assert(config::rungs_of(a, 2) =~= seq![r, s]);
    assert(config::rungs_of(b, 2) =~= seq![s, r]);
    reveal_with_fuel(config::ordered_rungs, 4);
    reveal_with_fuel(config::rung_place, 3);
    lemma_two_rungs(r, s);
    assert(config::comparable(seq![r, s]));
    assert(config::comparable(seq![s, r]));
}

proof fn lemma_two_rungs(r: (Double, Double), s: (Double, Double))
    requires
        r.0.below(s.0),
    ensures
        config::ordered_rungs(seq![r, s]) == seq![r, s],
        config::ordered_rungs(seq![s, r]) == seq![r, s],
{
    let none = Seq::<(Double, Double)>::empty();
    reveal_with_fuel(config::rung_place, 3);
    assert(seq![r, s].drop_last() =~= seq![r]);
    assert(seq![s, r].drop_last() =~= seq![s]);
    assert(seq![r].drop_last() =~= none);
    assert(seq![s].drop_last() =~= none);
    assert(config::ordered_rungs(none) =~= none);
    assert(config::ordered_rungs(seq![r]) =~= seq![r]);
    assert(config::ordered_rungs(seq![s]) =~= seq![s]);
    assert(config::rung_place(seq![r], s, 1) == 1);
    assert(config::rung_place(seq![s], r, 1) == 0);
    assert(config::ordered_rungs(seq![r, s]) =~= seq![r, s]);
    assert(config::ordered_rungs(seq![s, r]) =~= seq![r, s]);
}

/// The mode that holds. What is asked for holds, but live only with the consent;
/// left open it is live with a key, a secret and the consent, the test network
/// where there is one, and paper otherwise.
pub proof fn law_mode_that_holds(c: ConfigView)
    ensures
        ({
            let asked = words::lowercase(c.mode);
            let keyed = c.api_key.len() > 0 && c.api_secret.len() > 0 && c.live_ack;
            &&& asked == "paper"@ ==> c.mode_text() == "paper"@
            &&& asked == "testnet"@ ==> c.mode_text() == "testnet"@
            &&& asked == "live"@ && c.live_ack ==> c.mode_text() == "live"@
            &&& asked != "paper"@ && asked != "testnet"@ && keyed ==> c.mode_text() == "live"@
            &&& asked != "paper"@ && asked != "testnet"@ && !keyed && !(asked == "live"@
                && c.live_ack) ==> c.mode_text() == if c.testnet {
                "testnet"@
            } else {
                "paper"@
            }
        }),
{
}

/// Orders may be sent in live mode and on the test network, where the dry run is
/// off; what is shown says of a dry run that it is one.
pub proof fn law_when_orders_may_be_sent(c: ConfigView)
    ensures
        ({
            let in_earnest = c.mode_text() == "live"@ || c.mode_text() == "testnet"@;
            &&& c.may_order() == (in_earnest && !c.dry_run)
            &&& c.shown_mode() == if in_earnest && c.dry_run {
                c.mode_text() + " (dry-run)"@
            } else {
                c.mode_text()
            }
        }),
{
}

/// Orders go to the exchange of the venue, and to its test network unless the
/// mode is live.
pub proof fn law_where_orders_are_sent(c: ConfigView)
    ensures
        c.venue == "futures"@ && c.mode_text() == "live"@ ==> c.order_url()
            == "https://fapi.binance.com"@,
        c.venue == "futures"@ && c.mode_text() != "live"@ ==> c.order_url()
            == "https://testnet.binancefuture.com"@,
        c.venue != "futures"@ && c.mode_text() == "live"@ ==> c.order_url()
            == "https://api.binance.com"@,
        c.venue != "futures"@ && c.mode_text() != "live"@ ==> c.order_url()
            == "https://testnet.binance.vision"@,
{
}

/// Data comes from the source that is asked for; left open, from the futures
/// exchange where that is the venue, and else from the spot exchange.
pub proof fn law_where_data_comes_from(c: ConfigView)
    ensures
        ({
            let asked = c.data_venue;
            let known = asked == "bybit"@ || asked == "spot"@ || asked == "futures"@;
            &&& known ==> c.data_source() == asked
            &&& !known && c.venue == "futures"@ ==> c.data_source() == "futures"@
            &&& !known && c.venue != "futures"@ ==> c.data_source() == "spot"@
            &&& c.data_source() == "bybit"@ ==> c.source_text() == c.symbol
                + " live via Bybit public REST klines (15m, poll)"@
            &&& c.data_source() != "bybit"@ ==> c.source_text() == c.symbol + " live via Binance "@
                + c.data_source() + " REST klines (15m, poll)"@
        }),
{
}

/// What is printed at the start tells the settings, each in its place.
pub proof fn law_banner_tells_the_settings(c: ConfigView, shown: ShownView)
    ensures
        ({
            let yes = |b: bool|
                if b {
                    "true"@
                } else {
                    "false"@
                };
            &&& c.stop_mode() == if c.sl_touch {
                "touch"@
            } else {
                "close"@
            }
            &&& c.settings_line(shown) == "     settings : RR="@ + shown.rr + "  skip-00:01="@
                + yes(c.skip_hour0) + "  trail="@ + yes(c.trail_on) + " "@ + shown.ladder
            &&& c.fills_line() == "     fills    : SL_MODE="@ + c.stop_mode()
                + "  fees maker/taker="@ + decimal::fixed_text(c.fee_maker_pct, 3) + "/"@
                + decimal::fixed_text(c.fee_taker_pct, 3) + "%  slip="@ + decimal::fixed_text(
                c.sl_slip_pct,
                3,
            ) + "%"@
            &&& c.legacy_sizing ==> c.sizing_line(shown) == "     sizing   : legacy fixed "@
                + shown.position_usd + " USDT notional"@
            &&& !c.legacy_sizing ==> c.sizing_line(shown) == "     sizing   : risk "@
                + decimal::fixed_text(c.risk_pct, 2) + "% of equity, notional cap "@
                + decimal::fixed_text(c.leverage_cap, 1) + "x equity"@
            &&& c.runtime_line(shown) == "     runtime  : http://"@ + c.host + ":"@
                + text::decimal(c.port as nat) + "  poll="@ + shown.poll_s + "s tick="@
                + shown.tick_s + "s"@
            &&& c.data_line() == "     data     : "@ + c.source_text() + " ("@ + c.data_source()
                + ")"@
            &&& c.mode_text() != "paper"@ ==> c.orders_line() == "     orders   -> "@ + c.order_url()
                + " (venue="@ + c.venue + ", dry-run="@ + yes(c.dry_run) + ")"@
            &&& c.mode_text() == "paper"@ ==> c.orders_line()
                == "     paper fills (no exchange orders). Set MODE/BINANCE_* env to go live."@
            &&& c.money_note().len() == if c.may_order() && c.venue == "futures"@ && c.mode_text()
                == "live"@ {
                1nat
            } else {
                0
            }
        }),
{
}

} // verus!
