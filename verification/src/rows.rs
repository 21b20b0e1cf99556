//! What comes in: how the rows of an exchange and the lines of a recording are
//! read as bars.

use crate::config::ConfigView;
use crate::decimal;
use crate::double::Double;
use crate::feed;
use crate::feed::{FeedView, HealthView, Venue};
use crate::json::JsonView;
use crate::profile;
use crate::profile::Bar;
use crate::replay;
use crate::text;
use crate::words;
use vstd::prelude::*;

verus! {

// ---------------------------------------------------------------------------
// Rows of an exchange
// ---------------------------------------------------------------------------

/// Whether a value writes the number `x`, as a number or as text.
pub open spec fn writes(j: JsonView, x: Double) -> bool {
    ||| j.number() == Some(x)
    ||| j.number() is None && (j.text() matches Some(s) && decimal::parsed(s) == Some(x))
}

/// Whether a value writes the whole number `n`, as a number or as text.
pub open spec fn writes_whole(j: JsonView, n: int) -> bool {
    ||| j.whole() == Some(n)
    ||| j.whole() is None && (j.text() matches Some(s) && words::number_within(
        s,
        i64::MIN as int,
        i64::MAX as int,
    ) == Some(n))
}

/// A row of a closed and new bar is read field by field: its start in
/// milliseconds, then open, high, low and close, and then the volume. Rows of
/// Binance with more than eight fields have the volume that counts in the ninth.
pub proof fn law_row_is_read_in_order(
    f: FeedView,
    row: Seq<JsonView>,
    now_ms: int,
    start: int,
    x: Seq<Double>,
)
    requires
        row.len() >= 7,
        0 <= start <= i64::MAX,
        writes_whole(row[0], start),
        x.len() == 9,
        writes(row[1], x[1]),
        writes(row[2], x[2]),
        writes(row[3], x[3]),
        writes(row[4], x[4]),
        writes(row[5], x[5]),
        row.len() > 8 ==> writes(row[8], x[8]),
    ensures
        ({
            let made = f.bar_of(JsonView::List(row), now_ms);
            let closed = start + f.interval_s * 1000 <= now_ms;
            let new = f.last matches Some(last) ==> start / 1000 > last;
            &&& made is Some <==> closed && new
            &&& made matches Some(b) ==> {
                &&& b.ts == start / 1000
                &&& b.o == x[1]
                &&& b.h == x[2]
                &&& b.l == x[3]
                &&& b.c == x[4]
                &&& f.venue == Venue::Bybit || row.len() <= 8 ==> b.v == x[5]
                &&& f.venue != Venue::Bybit && row.len() > 8 ==> b.v == x[8]
                &&& x[3].at_most(x[2]) ==> b.l.at_most(b.h)
                &&& x[1].at_most(x[2]) ==> b.o.at_most(b.h)
                &&& x[3].at_most(x[1]) ==> b.l.at_most(b.o)
                &&& x[4].at_most(x[2]) ==> b.c.at_most(b.h)
                &&& x[3].at_most(x[4]) ==> b.l.at_most(b.c)
            }
        }),
{
}

/// A row that is too short makes no bar, and neither does anything but a row.
pub proof fn law_short_rows_are_left_out(f: FeedView, j: JsonView, now_ms: int)
    ensures
        j matches JsonView::List(row) && row.len() < 7 ==> f.bar_of(j, now_ms) is None,
        !(j is List) ==> f.bar_of(j, now_ms) is None,
{
}

proof fn lemma_found(f: FeedView, rows: Seq<JsonView>, now_ms: int, n: nat, i: int, b: Bar)
    requires
        0 <= i < n <= rows.len(),
        f.bar_of(rows[i], now_ms) == Some(b),
    ensures
        f.bars_of(rows, now_ms, n).contains(b),
    decreases n,
{
    let before = f.bars_of(rows, now_ms, (n - 1) as nat);
    let all = f.bars_of(rows, now_ms, n);
    if i == n - 1 {
        assert(all[before.len() as int] == b);
    } else {
        lemma_found(f, rows, now_ms, (n - 1) as nat, i, b);
        let k = choose|k: int| 0 <= k < before.len() && before[k] == b;
        assert(all[k] == b);
    }
}

/// No bar is lost: every row that makes a bar has it among the new ones.
pub proof fn law_every_new_bar_is_handed_out(
    f: FeedView,
    rows: Seq<JsonView>,
    now_ms: int,
    i: int,
    b: Bar,
)
    requires
        0 <= i < rows.len(),
        f.bar_of(rows[i], now_ms) == Some(b),
    ensures
        f.new_bars(rows, now_ms).contains(b),
{
    broadcast use vstd::seq_lib::group_to_multiset_ensures;

    let found = f.bars_of(rows, now_ms, rows.len());
    lemma_found(f, rows, now_ms, rows.len(), i, b);
    profile::law_time_order(found);
    assert(found.to_multiset().count(b) > 0);
    assert(f.new_bars(rows, now_ms).to_multiset().count(b) > 0);
}

/// The rows of an answer: Bybit tells them under `result` and `list`, the newest
/// first, and a code that is not zero where something is wrong; Binance tells
/// them alone, the oldest first.
pub proof fn law_rows_of_an_answer(f: FeedView, j: JsonView, result: JsonView, list: Seq<JsonView>)
    ensures
        f.venue == Venue::Bybit && j.field("retCode"@) == Some(JsonView::Whole(0)) && j.field(
            "result"@,
        ) == Some(result) && result.field("list"@) == Some(JsonView::List(list)) ==> f.rows_of(j)
            == Ok::<Seq<JsonView>, Seq<char>>(list.reverse()),
        f.venue != Venue::Bybit ==> f.rows_of(JsonView::List(list)) == Ok::<
            Seq<JsonView>,
            Seq<char>,
        >(list),
{
}

/// What is said of an answer of Bybit that tells a code.
pub proof fn law_refusal_is_told(f: FeedView, j: JsonView, code: int, message: Seq<char>)
    requires
        f.venue == Venue::Bybit,
        code != 0,
        i64::MIN <= code <= i64::MAX,
        j.field("retCode"@) == Some(JsonView::Whole(code)),
        j.field("retMsg"@) == Some(JsonView::Text(message)),
    ensures
        f.rows_of(j) == Err::<Seq<JsonView>, Seq<char>>(
            "bybit retCode "@ + text::signed_decimal(code) + ": "@ + message,
        ),
{
}

/// The last price is the text under `price`, or under `lastPrice` of the first
/// entry of Bybit's list.
pub proof fn law_price_of_an_answer(
    f: FeedView,
    j: JsonView,
    result: JsonView,
    list: Seq<JsonView>,
    s: Seq<char>,
)
    ensures
        f.venue == Venue::Bybit && j.field("result"@) == Some(result) && result.field("list"@)
            == Some(JsonView::List(list)) && list.len() > 0 && list[0].field("lastPrice"@) == Some(
            JsonView::Text(s),
        ) ==> f.price_of(j) == decimal::parsed(s),
        f.venue != Venue::Bybit && j.field("price"@) == Some(JsonView::Text(s)) ==> f.price_of(j)
            == decimal::parsed(s),
{
}

/// Where bars and prices are asked for, by venue.
pub proof fn law_where_is_asked(f: FeedView, limit: nat)
    ensures
        ({
            let n = text::decimal(
                if limit < 1000 {
                    limit
                } else {
                    1000
                },
            );
            &&& f.venue == Venue::Bybit ==> {
                &&& f.bars_url(limit) == f.base + "/v5/market/kline?category=linear&symbol="@
                    + f.symbol + "&interval=15&limit="@ + n
                &&& f.price_url() == f.base + "/v5/market/tickers?category=linear&symbol="@
                    + f.symbol
                &&& f.label() == "bybit"@
            }
            &&& f.venue == Venue::BinanceSpot ==> {
                &&& f.bars_url(limit) == f.base + "/api/v3/klines?symbol="@ + f.symbol
                    + "&interval=15m&limit="@ + n
                &&& f.price_url() == f.base + "/api/v3/ticker/price?symbol="@ + f.symbol
                &&& f.label() == "binance-spot"@
            }
            &&& f.venue == Venue::BinanceFutures ==> {
                &&& f.bars_url(limit) == f.base + "/fapi/v1/klines?symbol="@ + f.symbol
                    + "&interval=15m&limit="@ + n
                &&& f.price_url() == f.base + "/fapi/v1/ticker/price?symbol="@ + f.symbol
                &&& f.label() == "binance-futures"@
            }
        }),
{
}

/// The feed of a configuration: bars of fifteen minutes of its symbol, from the
/// source that is asked for, or else from the exchange of the venue.
pub proof fn law_feed_of_a_configuration(c: ConfigView)
    ensures
        ({
            let f = FeedView::fresh(c);
            let asked = c.data_venue;
            let bybit = asked == "bybit"@;
            let futures = asked == "futures"@ || (asked != "bybit"@ && asked != "spot"@ && c.venue
                == "futures"@);
            &&& f.symbol == c.symbol
            &&& f.interval_s == 900
            &&& f.boot_limit == 1000
            &&& bybit ==> f.venue == Venue::Bybit && f.base == c.bybit_base
            &&& futures ==> f.venue == Venue::BinanceFutures && f.base
                == "https://fapi.binance.com"@
            &&& !bybit && !futures ==> f.venue == Venue::BinanceSpot && f.base
                == "https://data-api.binance.vision"@
            &&& f.bars.len() == 0 && f.last is None && f.last_price is None
        }),
{
    reveal_strlit("bybit");
    reveal_strlit("spot");
    reveal_strlit("futures");
    assert("bybit"@[0] != "spot"@[0]);
    assert("bybit"@[0] != "futures"@[0]);
    assert("spot"@[0] != "futures"@[0]);
}

/// What a poll leaves: its bars behind those before, the oldest of them dropped
/// beyond thirty thousand, and the time of the last one. A poll that brings
/// nothing leaves the bars alone.
pub proof fn law_poll_keeps_the_bars(f: FeedView, bars: Seq<Bar>, now: i64)
    ensures
        ({
            let g = f.polled(bars, now);
            let all = f.bars + bars;
            &&& bars.len() == 0 ==> g.bars == f.bars && g.last == f.last
            &&& bars.len() > 0 ==> g.last == Some(bars.last().ts)
            &&& bars.len() > 0 && all.len() <= 30_000 ==> g.bars == all
            &&& bars.len() > 0 && all.len() > 30_000 ==> g.bars == all.skip(all.len() - 30_000)
            &&& g.last_price == f.last_price && g.symbol == f.symbol && g.venue == f.venue
            &&& g.health.polls == f.health.polls + 1
            &&& g.health.consecutive_fails == 0
            &&& g.health.last_ok_ts == Some(now)
            &&& f.booted(bars, now).bars == bars
            &&& f.booted(bars, now).last == if bars.len() > 0 {
                Some(bars.last().ts)
            } else {
                None
            }
            &&& f.booted(bars, now).health == g.health
        }),
{
    if bars.len() > 0 {
        assert((f.bars + bars).last() == bars.last());
    }
}

/// A poll asks for three bars, and for one more for every five hundred that are
/// held, up to twenty.
pub proof fn law_poll_size(f: FeedView)
    ensures
        3 <= f.poll_size() <= 20,
        f.bars.len() < 8500 ==> f.poll_size() == 3 + f.bars.len() / 500,
        f.bars.len() >= 8500 ==> f.poll_size() == 20,
{
}

/// A price that came in is the last one, and the feed is well; a failure is
/// counted and told, and leaves all else alone.
pub proof fn law_price_and_failure(f: FeedView, p: Double, now: i64, e: Seq<char>)
    ensures
        f.priced(p, now).last_price == Some(p),
        f.priced(p, now).bars == f.bars,
        f.priced(p, now).last == f.last,
        f.priced(p, now).health.consecutive_fails == 0,
        f.priced(p, now).health.last_ok_ts == Some(now),
        f.priced(p, now).health.polls == f.health.polls,
        f.failed(e).health.fails == f.health.fails + 1,
        f.failed(e).health.consecutive_fails == f.health.consecutive_fails + 1,
        f.failed(e).health.last_error == Some(e),
        f.failed(e).health.polls == f.health.polls,
        f.failed(e).bars == f.bars && f.failed(e).last == f.last && f.failed(e).last_price
            == f.last_price,
{
}

/// What is told of the feed's health, each under its name. It is well while fewer
/// than five things in a row have failed.
pub proof fn law_health_is_told(h: HealthView)
    ensures
        h.fields() == seq![
            ("polls"@, JsonView::Whole(h.polls)),
            ("fails"@, JsonView::Whole(h.fails)),
            ("consecutive_fails"@, JsonView::Whole(h.consecutive_fails)),
            (
                "last_ok_ts"@,
                match h.last_ok_ts {
                    Some(t) => JsonView::Whole(t as int),
                    None => JsonView::Null,
                },
            ),
            (
                "last_error"@,
                match h.last_error {
                    Some(e) => JsonView::Text(e),
                    None => JsonView::Null,
                },
            ),
            ("healthy"@, JsonView::Bool(h.consecutive_fails < 5)),
        ],
{
}

// ---------------------------------------------------------------------------
// Lines of a recording
// ---------------------------------------------------------------------------

proof fn lemma_place_skip(s: Seq<char>, c: char, i: int, k: int)
    requires
        0 <= i,
        0 <= k,
        i + k <= s.len(),
    ensures
        words::place(s, c, i + k) == words::place(s.skip(i), c, k) + i,
        i + k <= words::place(s, c, i + k) <= s.len(),
    decreases s.len() - i - k,
{
    if i + k < s.len() {
        assert(s.skip(i)[k] == s[i + k]);
        if s[i + k] != c {
            lemma_place_skip(s, c, i, k + 1);
        }
    }
}

/// The parts from a position on are the parts of what is left from there.
proof fn lemma_parts_skip(s: Seq<char>, c: char, i: int, k: int)
    requires
        0 <= i,
        0 <= k,
        i + k <= s.len(),
    ensures
        words::parts_from(s, c, i + k) == words::parts_from(s.skip(i), c, k),
    decreases s.len() - i - k,
{
    let t = s.skip(i);
    lemma_place_skip(s, c, i, k);
    let j = words::place(t, c, k);
    if j < t.len() {
        lemma_parts_skip(s, c, i, j + 1);
        assert(s.subrange(i + k, i + j) =~= t.subrange(k, j));
    } else {
        assert(s.skip(i + k) =~= t.skip(k));
    }
}

pub proof fn lemma_place_first(a: Seq<char>, c: char, rest: Seq<char>, k: int)
    requires
        0 <= k <= a.len(),
        !a.contains(c),
    ensures
        words::place(a + seq![c] + rest, c, k) == a.len(),
    decreases a.len() - k,
{
    let s = a + seq![c] + rest;
    if k < a.len() {
        assert(s[k] == a[k]);
        assert(a.contains(a[k]));
        lemma_place_first(a, c, rest, k + 1);
    } else {
        assert(s[k] == c);
    }
}

/// A text up to a mark that it does not hold is the first part.
pub proof fn lemma_first_part(a: Seq<char>, c: char, rest: Seq<char>)
    requires
        !a.contains(c),
    ensures
        words::parts(a + seq![c] + rest, c) == seq![a] + words::parts(rest, c),
{
    let s = a + seq![c] + rest;
    lemma_place_first(a, c, rest, 0);
    assert(s.subrange(0, a.len() as int) =~= a);
    lemma_parts_skip(s, c, a.len() as int + 1, 0);
    assert(s.skip(a.len() as int + 1) =~= rest);
}

pub proof fn lemma_place_none(a: Seq<char>, c: char, k: int)
    requires
        0 <= k <= a.len(),
        !a.contains(c),
    ensures
        words::place(a, c, k) >= a.len(),
    decreases a.len() - k,
{
    if k < a.len() {
        assert(a.contains(a[k]));
        lemma_place_none(a, c, k + 1);
    }
}

/// A text without the mark is its only part.
pub proof fn lemma_only_part(a: Seq<char>, c: char)
    requires
        !a.contains(c),
    ensures
        words::parts(a, c) == seq![a],
{
    lemma_place_none(a, c, 0);
    assert(a.skip(0) =~= a);
}

/// A line that writes the time in milliseconds and five numbers, with commas
/// between.
pub open spec fn line_with(
    t: Seq<char>,
    o: Seq<char>,
    h: Seq<char>,
    l: Seq<char>,
    c: Seq<char>,
    v: Seq<char>,
) -> Seq<char> {
    t + seq![','] + (o + seq![','] + (h + seq![','] + (l + seq![','] + (c + seq![','] + v))))
}

/// A line is read back column by column: time, open, high, low, close, volume.
pub proof fn law_line_is_read_in_order(
    t: Seq<char>,
    o: Seq<char>,
    h: Seq<char>,
    l: Seq<char>,
    c: Seq<char>,
    v: Seq<char>,
    x: Seq<Double>,
)
    requires
        !t.contains(',') && !o.contains(',') && !h.contains(',') && !l.contains(',')
            && !c.contains(',') && !v.contains(','),
        x.len() == 6,
        decimal::parsed(t) == Some(x[0]),
        decimal::parsed(o) == Some(x[1]),
        decimal::parsed(h) == Some(x[2]),
        decimal::parsed(l) == Some(x[3]),
        decimal::parsed(c) == Some(x[4]),
        decimal::parsed(v) == Some(x[5]),
    ensures
        ({
            let b = replay::recorded_bar(line_with(t, o, h, l, c, v));
            &&& b.ts == x[0].quotient(Double::whole(1000)).truncated()
            &&& b.o == x[1]
            &&& b.h == x[2]
            &&& b.l == x[3]
            &&& b.c == x[4]
            &&& b.v == x[5]
        }),
{
    let r4 = c + seq![','] + v;
    let r3 = l + seq![','] + r4;
    let r2 = h + seq![','] + r3;
    let r1 = o + seq![','] + r2;
    lemma_only_part(v, ',');
    lemma_first_part(c, ',', v);
    lemma_first_part(l, ',', r4);
    lemma_first_part(h, ',', r3);
    lemma_first_part(o, ',', r2);
    lemma_first_part(t, ',', r1);
    let p = words::parts(line_with(t, o, h, l, c, v), ',');
    assert(p =~= seq![t, o, h, l, c, v]);
    let seconds = x[0].quotient(Double::whole(1000)).truncated();
    assert(i64::MIN <= seconds <= i64::MAX) by {
        let n = crate::double::units(x[0].quotient(Double::whole(1000)).magnitude());
        vstd::arithmetic::power2::lemma_pow2_pos(1074);
        vstd::arithmetic::div_mod::lemma_div_pos_is_pos(n as int, crate::double::one() as int);
    }
}

proof fn lemma_recorded(parts: Seq<Seq<char>>, n: nat, i: int)
    requires
        1 <= i < n <= parts.len(),
        replay::line_of(parts, i).len() > 0,
    ensures
        replay::recorded(parts, n).contains(replay::recorded_bar(replay::line_of(parts, i))),
    decreases n,
{
    let b = replay::recorded_bar(replay::line_of(parts, i));
    let before = replay::recorded(parts, (n - 1) as nat);
    let all = replay::recorded(parts, n);
    if i == n - 1 {
        assert(all[before.len() as int] == b);
    } else {
        lemma_recorded(parts, (n - 1) as nat, i);
        let k = choose|k: int| 0 <= k < before.len() && before[k] == b;
        assert(all[k] == b);
    }
}

/// Every line behind the heading that writes a bar has it among the bars of the
/// recording, with each column in its field.
#[verifier::spinoff_prover]
pub proof fn law_recording_holds_its_lines(
    raw: Seq<char>,
    i: int,
    t: Seq<char>,
    o: Seq<char>,
    h: Seq<char>,
    l: Seq<char>,
    c: Seq<char>,
    v: Seq<char>,
    x: Seq<Double>,
)
    requires
        1 <= i < words::parts(raw, '\n').len(),
        words::parts(raw, '\n')[i] == line_with(t, o, h, l, c, v),
        v.len() > 0 && v.last() != '\r',
        !t.contains(',') && !o.contains(',') && !h.contains(',') && !l.contains(',')
            && !c.contains(',') && !v.contains(','),
        x.len() == 6,
        decimal::parsed(t) == Some(x[0]),
        decimal::parsed(o) == Some(x[1]),
        decimal::parsed(h) == Some(x[2]),
        decimal::parsed(l) == Some(x[3]),
        decimal::parsed(c) == Some(x[4]),
        decimal::parsed(v) == Some(x[5]),
    ensures
        exists|k: int|
            0 <= k < replay::recorded_bars(raw).len() && ({
                let b = #[trigger] replay::recorded_bars(raw)[k];
                &&& b.ts == x[0].quotient(Double::whole(1000)).truncated()
                &&& b.o == x[1]
                &&& b.h == x[2]
                &&& b.l == x[3]
                &&& b.c == x[4]
                &&& b.v == x[5]
            }),
{
    broadcast use vstd::seq_lib::group_to_multiset_ensures;

    let p = words::parts(raw, '\n');
    let line = line_with(t, o, h, l, c, v);
    let b = replay::recorded_bar(line);
    law_line_is_read_in_order(t, o, h, l, c, v, x);
    assert(line.last() == v.last());
    assert(replay::line_of(p, i) == line);
    let found = replay::recorded(p, p.len());
    lemma_recorded(p, p.len(), i);
    profile::law_time_order(found);
    let out = replay::recorded_bars(raw);
    assert(found.to_multiset().count(b) > 0);
    assert(out.to_multiset().count(b) > 0);
    assert(out.contains(b));
    let k = choose|k: int| 0 <= k < out.len() && out[k] == b;
    assert(replay::recorded_bars(raw)[k] == b);
}

/// A recording of a heading and one line holds the bar of that line and no other.
#[verifier::spinoff_prover]
pub proof fn law_recording_of_one_line(head: Seq<char>, line: Seq<char>)
    requires
        !head.contains('\n'),
        !line.contains('\n'),
        line.len() > 0,
        line.last() != '\r',
    ensures
        replay::recorded_bars(head + seq!['\n'] + (line + seq!['\n'] + seq![])) == seq![
            replay::recorded_bar(line),
        ],
{
    let none = Seq::<char>::empty();
    let rest = line + seq!['\n'] + none;
    let raw = head + seq!['\n'] + rest;
    assert(!none.contains('\n'));
    lemma_only_part(none, '\n');
    lemma_first_part(line, '\n', none);
    lemma_first_part(head, '\n', rest);
    let p = words::parts(raw, '\n');
    assert(p =~= seq![head, line, none]);
    reveal_with_fuel(replay::recorded, 4);
    let b = replay::recorded_bar(line);
    assert(replay::line_of(p, 1) == line);
    assert(replay::recorded(p, 3) =~= seq![b]);
    reveal_with_fuel(profile::in_time_order, 3);
    assert(seq![b].drop_last() =~= seq![]);
    assert(profile::in_time_order(seq![b].drop_last()) =~= seq![]);
    assert(profile::bar_place(seq![], b, 0) == 0);
    assert(profile::in_time_order(seq![b]) =~= seq![b]);
}

/// A fetch that failed is tried again after one and a half seconds, and then each
/// time one and a half seconds later, as long as tries are left.
pub proof fn law_pauses_between_tries(fetch: feed::Fetch)
    requires
        fetch.attempt < u32::MAX,
    ensures
        ({
            let (pause, next) = feed::after_failure(fetch);
            &&& next.retries == fetch.retries
            &&& pause is Some <==> fetch.attempt + 1 < fetch.retries
            &&& pause is None ==> next == fetch
            &&& pause matches Some(ms) ==> ms == 1500 * next.attempt && next.attempt
                == fetch.attempt + 1
        }),
{
}

/// A price that was found is handed out and kept, and the feed is well; what went
/// wrong is noted and no price is handed out, and the one before is kept.
pub proof fn law_price_is_kept(f: FeedView, answer: Result<JsonView, Seq<char>>, now: i64)
    ensures
        ({
            let (g, price) = f.asked_for_price(answer, now);
            let found = match answer {
                Ok(j) => f.price_of(j),
                Err(_) => None,
            };
            &&& price == found
            &&& g.bars == f.bars
            &&& g.last == f.last
            &&& found is Some ==> g.last_price == found && g.health == f.health.well(now)
            &&& found is None ==> g.last_price == f.last_price
            &&& answer is Err ==> g == f.failed(answer->Err_0)
            &&& answer is Ok && found is None ==> g == f.failed("ticker: no lastPrice"@)
        }),
{
}

} // verus!
