//! Recorded bars, and what the engine makes of them.

use crate::decimal;
use crate::double::Double;
use crate::engine;
use crate::engine::{
    default_ladder, CfgView, Strategy, StrategyCfg, StrategyView, Trade, TradeView,
};
use crate::profile;
use crate::profile::{insert_bar, Bar};
use crate::text;
use crate::text::{chars_of, push_decimal, same};
use crate::words;
use crate::words::{slice, split};
use vstd::prelude::*;
use vstd::string::*;

verus! {

/// A line without the carriage return behind.
pub open spec fn without_return(s: Seq<char>) -> Seq<char> {
    if s.len() > 0 && s.last() == '\r' {
        s.drop_last()
    } else {
        s
    }
}

/// The line at a place of the parts between line breaks. Only a carriage return
/// in front of a line break belongs to the break.
pub open spec fn line_of(parts: Seq<Seq<char>>, i: int) -> Seq<char> {
    if i < parts.len() - 1 {
        without_return(parts[i])
    } else {
        parts[i]
    }
}

/// The number of a column; 0 where there is none.
pub open spec fn column(columns: Seq<Seq<char>>, i: int) -> Double {
    if i < columns.len() {
        match decimal::parsed(columns[i]) {
            Some(x) => x,
            None => Double { bits: 0 },
        }
    } else {
        Double { bits: 0 }
    }
}

/// The bar that a line writes: its time in milliseconds, its prices and its
/// volume, with commas between.
pub open spec fn recorded_bar(line: Seq<char>) -> Bar {
    let c = words::parts(line, ',');
    Bar {
        ts: column(c, 0).quotient(Double::whole(1000)).truncated() as i64,
        o: column(c, 1),
        h: column(c, 2),
        l: column(c, 3),
        c: column(c, 4),
        v: column(c, 5),
    }
}

/// The bars of the first `n` lines: the first line is a heading, and empty lines
/// are passed over.
pub open spec fn recorded(parts: Seq<Seq<char>>, n: nat) -> Seq<Bar>
    decreases n,
{
    if n <= 1 {
        seq![]
    } else {
        let before = recorded(parts, (n - 1) as nat);
        let line = line_of(parts, n - 1);
        if line.len() > 0 {
            before.push(recorded_bar(line))
        } else {
            before
        }
    }
}

/// The bars that a recording holds, in the order of their times.
pub open spec fn recorded_bars(raw: Seq<char>) -> Seq<Bar> {
    let p = words::parts(raw, '\n');
    profile::in_time_order(recorded(p, p.len()))
}

fn read_column(columns: &Vec<String>, i: usize) -> (r: Double)
    ensures
        r == column(words::texts(columns@), i as int),
{
    assert(words::texts(columns@).len() == columns@.len());
    if i < columns.len() {
        assert(words::texts(columns@)[i as int] == columns@[i as int]@);
        match Double::parse(columns[i].as_str()) {
            Some(x) => x,
            None => Double { bits: 0 },
        }
    } else {
        Double { bits: 0 }
    }
}

fn read_bar(line: &str) -> (r: Bar)
    ensures
        r == recorded_bar(line@),
{
    let c: Vec<String> = split(line, ',');
    Bar {
        ts: read_column(&c, 0).over(Double::from_u64(1000)).to_i64(),
        o: read_column(&c, 1),
        h: read_column(&c, 2),
        l: read_column(&c, 3),
        c: read_column(&c, 4),
        v: read_column(&c, 5),
    }
}

fn cut_return(s: &str) -> (r: String)
    ensures
        r@ == without_return(s@),
{
    let cs: Vec<char> = chars_of(s);
    let n: usize = cs.len();
    if n > 0 && cs[n - 1] == '\r' {
        let r: String = slice(&cs, 0, n - 1);
        assert(r@ =~= s@.drop_last());
        r
    } else {
        s.to_owned()
    }
}

/// The bars that a recording holds, in the order of their times.
pub fn parse_csv(raw: &str) -> (r: Vec<Bar>)
    ensures
        r@ == recorded_bars(raw@),
{
    let lines: Vec<String> = split(raw, '\n');
    let n: usize = lines.len();
    let ghost p = words::parts(raw@, '\n');
    let mut out: Vec<Bar> = Vec::new();
    let ghost mut found: Seq<Bar> = seq![];
    let mut i: usize = 1;
    while i < n
        invariant
            1 <= i <= n,
            n == lines@.len(),
            words::texts(lines@) == p,
            p.len() == n,
            found == recorded(p, i as nat),
            out@ == profile::in_time_order(found),
        decreases n - i,
    {
        assert(p[i as int] == lines@[i as int]@);
        let line: String = if i < n - 1 {
            cut_return(lines[i].as_str())
        } else {
            lines[i].clone()
        };
        if !line.as_str().is_empty() {
            let b: Bar = read_bar(line.as_str());
            proof {
                let before = found;
                found = found.push(b);
                assert(found.drop_last() =~= before);
            }
            insert_bar(&mut out, b);
        }
        i = i + 1;
    }
    out
}

/// What the engine is set to for a replay.
pub open spec fn replay_settings(touch: bool) -> CfgView {
    CfgView {
        rr: Double::whole(2),
        skip_hour0: false,
        trail_on: true,
        ladder: engine::default_rungs(),
        same_bar_exits: true,
        sl_touch: touch,
    }
}

/// What the engine is set to for a replay.
pub fn replay_cfg(touch: bool) -> (r: StrategyCfg)
    ensures
        r@ == replay_settings(touch),
        r@ == (CfgView {
            rr: Double::whole(2),
            skip_hour0: false,
            trail_on: true,
            ladder: engine::default_rungs(),
            same_bar_exits: true,
            sl_touch: touch,
        }),
{
    StrategyCfg {
        rr: Double::from_u64(2),
        skip_hour0: false,
        trail_on: true,
        ladder: default_ladder(),
        same_bar_exits: true,
        sl_touch: touch,
    }
}

/// The engine after it has been fed recorded bars.
pub fn replayed(bars: &Vec<Bar>, cfg: StrategyCfg) -> (r: Strategy)
    ensures
        r@ == StrategyView::fresh(cfg@).steps(bars@).0,
{
    let mut s: Strategy = Strategy::new(cfg);
    let _ = s.feed_history(bars.as_slice());
    s
}

/// What some trades came to.
#[derive(Clone, Copy, Debug)]
pub struct Summary {
    pub trades: usize,
    pub sl: usize,
    pub tp: usize,
    pub eos: usize,
    pub wins: usize,
}

/// What some trades say.
pub open spec fn trades_view(t: Seq<Trade>) -> Seq<TradeView> {
    t.map_values(|x: Trade| x@)
}

/// How many trades ended in a way.
pub open spec fn ended(t: Seq<TradeView>, exit_type: Seq<char>) -> nat
    decreases t.len(),
{
    if t.len() == 0 {
        0
    } else {
        ended(t.drop_last(), exit_type) + if t.last().exit_type == exit_type {
            1nat
        } else {
            0
        }
    }
}

/// How many trades gained.
pub open spec fn won(t: Seq<TradeView>) -> nat
    decreases t.len(),
{
    if t.len() == 0 {
        0
    } else {
        won(t.drop_last()) + if (Double { bits: 0 }).below(t.last().pct) {
            1nat
        } else {
            0
        }
    }
}

/// Sums up some trades.
pub fn summarize(trades: &Vec<Trade>) -> (r: Summary)
    ensures
        r.trades == trades@.len(),
        r.sl == ended(trades_view(trades@), "SL"@),
        r.tp == ended(trades_view(trades@), "TP"@),
        r.eos == ended(trades_view(trades@), "EOS"@),
        r.wins == won(trades_view(trades@)),
{
    let n: usize = trades.len();
    let ghost all = trades_view(trades@);
    let mut s = Summary { trades: n, sl: 0, tp: 0, eos: 0, wins: 0 };
    let mut i: usize = 0;
    let zero: Double = Double { bits: 0 };
    assert(all.take(0) =~= seq![]);
    while i < n
        invariant
            i <= n,
            n == trades@.len(),
            all == trades_view(trades@),
            zero == (Double { bits: 0 }),
            s.trades == n,
            s.sl == ended(all.take(i as int), "SL"@) && s.sl <= i,
            s.tp == ended(all.take(i as int), "TP"@) && s.tp <= i,
            s.eos == ended(all.take(i as int), "EOS"@) && s.eos <= i,
            s.wins == won(all.take(i as int)) && s.wins <= i,
        decreases n - i,
    {
        proof {
            assert(all.take(i + 1).drop_last() =~= all.take(i as int));
            assert(all.take(i + 1).last() == trades@[i as int]@);
        }
        let kind: &str = trades[i].exit_type.as_str();
        if same(kind, "SL") {
            s.sl = s.sl + 1;
        }
        if same(kind, "TP") {
            s.tp = s.tp + 1;
        }
        if same(kind, "EOS") {
            s.eos = s.eos + 1;
        }
        if zero.lt(trades[i].pct) {
            s.wins = s.wins + 1;
        }
        i = i + 1;
    }
    assert(all.take(n as int) =~= all);
    s
}

impl Summary {
    /// The share of trades that gained, in percent.
    pub open spec fn win_rate(self) -> Double {
        Double::whole(100).product(Double::whole(self.wins as int)).quotient(
            Double::whole(
                if self.trades == 0 {
                    1
                } else {
                    self.trades as int
                },
            ),
        )
    }

    /// The summary as it is printed, line by line, with what all trades gained.
    pub open spec fn lines(self, net: Double) -> Seq<Seq<char>> {
        seq![
            "trades      : "@ + text::decimal(self.trades as nat),
            "win rate    : "@ + decimal::fixed_text(self.win_rate(), 1) + "%"@,
            "net         : "@ + plus_text(net) + "%"@,
            "exit mix    : SL "@ + text::decimal(self.sl as nat) + " / TP "@ + text::decimal(
                self.tp as nat,
            ) + " / EOS "@ + text::decimal(self.eos as nat),
        ]
    }

    /// The summary as it is printed, line by line.
    pub fn report(&self, net: Double) -> (r: Vec<String>)
        ensures
            words::texts(r@) == self.lines(net),
    {
        let count: u64 = if self.trades == 0 {
            1
        } else {
            self.trades as u64
        };
        let rate: Double = Double::from_u64(100).times(Double::from_u64(self.wins as u64)).over(
            Double::from_u64(count),
        );
        let mut a: String = "trades      : ".to_owned();
        push_decimal(&mut a, self.trades as u64);
        let mut b: String = "win rate    : ".to_owned();
        b.append(rate.fixed(1).as_str());
        b.append("%");
        let mut c: String = "net         : ".to_owned();
        c.append(plus_fixed(net).as_str());
        c.append("%");
        let mut d: String = "exit mix    : SL ".to_owned();
        push_decimal(&mut d, self.sl as u64);
        d.append(" / TP ");
        push_decimal(&mut d, self.tp as u64);
        d.append(" / EOS ");
        push_decimal(&mut d, self.eos as u64);
        let mut out: Vec<String> = Vec::new();
        out.push(a);
        out.push(b);
        out.push(c);
        out.push(d);
        assert(words::texts(out@) =~= self.lines(net));
        out
    }
}

/// A number with its sign, also where it is a plus, and two digits behind the
/// point.
pub open spec fn plus_text(x: Double) -> Seq<char> {
    if x.nan() || x.negative() {
        decimal::fixed_text(x, 2)
    } else {
        "+"@ + decimal::fixed_text(x, 2)
    }
}

fn plus_fixed(x: Double) -> (r: String)
    ensures
        r@ == plus_text(x),
{
    if x.is_nan() || x.is_negative() {
        x.fixed(2)
    } else {
        "+".to_owned().concat(x.fixed(2).as_str())
    }
}

} // verus!
