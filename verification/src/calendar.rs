//! Dates and trading sessions.
//!
//! Days are counted from 1970-01-01, a Thursday, in the proleptic Gregorian
//! calendar. A session opens at 22:00 UTC and carries the date of its opening
//! day, so the hours before 22:00 belong to the session of the day before.

use crate::text;
use crate::text::push_zero_padded;
use vstd::arithmetic::div_mod::*;
use vstd::arithmetic::mul::*;
use vstd::prelude::*;

verus! {

/// The hour, UTC, at which a session opens.
pub const DAY_OPEN_HOUR: i64 = 22;

pub const DAY_SECONDS: i64 = 86_400;

/// Whether a year is a leap year.
pub open spec fn leap(y: int) -> bool {
    y % 4 == 0 && (y % 100 != 0 || y % 400 == 0)
}

/// The days of a month.
pub open spec fn days_in_month(y: int, m: int) -> int {
    if m == 2 {
        if leap(y) {
            29
        } else {
            28
        }
    } else if m == 4 || m == 6 || m == 9 || m == 11 {
        30
    } else {
        31
    }
}

/// Days of the year `y` before its month `m`.
pub open spec fn days_before_month(y: int, m: int) -> int
    decreases m,
{
    if m <= 1 {
        0
    } else {
        days_before_month(y, m - 1) + days_in_month(y, m - 1)
    }
}

/// Days from the first day of the year 0 to that of the year `y`.
pub open spec fn days_before_year(y: int) -> int {
    365 * y + (y + 3) / 4 - (y + 99) / 100 + (y + 399) / 400
}

/// Whether there is such a date.
pub open spec fn valid_date(y: int, m: int, d: int) -> bool {
    1 <= m <= 12 && 1 <= d <= days_in_month(y, m)
}

/// The number of the day `y`-`m`-`d`, counted from 1970-01-01.
pub open spec fn day_number(y: int, m: int, d: int) -> int {
    days_before_year(y) - days_before_year(1970) + days_before_month(y, m) + d - 1
}

/// Days from 0000-03-01 to the first of March of the year `y`.
pub open spec fn days_before_march(y: int) -> int {
    365 * y + y / 4 - y / 100 + y / 400
}

/// The day count that also takes months beyond December and any day: months
/// are counted on from March, 153 days to every five of them.
pub open spec fn day_count(y: int, m: int, d: int) -> int {
    let march_year = if m <= 2 {
        y - 1
    } else {
        y
    };
    let month = if m <= 2 {
        m + 9
    } else {
        m - 3
    };
    days_before_march(march_year) - days_before_march(1969) - 306 + (153 * month + 2) / 5 + d - 1
}

/// The date of a day.
pub open spec fn civil(day: int) -> (int, int, int) {
    choose|y: int, m: int, d: int| valid_date(y, m, d) && #[trigger] day_number(y, m, d) == day
}

/// The weekday of a day, Monday being 0.
pub open spec fn weekday(day: int) -> int {
    (day + 3) % 7
}

/// The day whose session holds the second `ts`.
pub open spec fn session_day(ts: int) -> int {
    if ts % 86_400 < 22 * 3_600 {
        ts / 86_400 - 1
    } else {
        ts / 86_400
    }
}

/// A date as `YYYY-MM-DD`.
pub open spec fn date_text(date: (int, int, int)) -> Seq<char> {
    text::zero_padded(date.0, 4) + seq!['-'] + text::zero_padded(date.1, 2) + seq!['-']
        + text::zero_padded(date.2, 2)
}

/// The second `ts` as `YYYY-MM-DDThh:mm:ssZ`.
pub open spec fn time_text(ts: int) -> Seq<char> {
    let t = ts % 86_400;
    date_text(civil(ts / 86_400)) + seq!['T'] + text::zero_padded(t / 3_600, 2) + seq![':']
        + text::zero_padded((t % 3_600) / 60, 2) + seq![':'] + text::zero_padded(t % 60, 2) + seq!['Z']
}

/// Every year is followed by the next one 365 days later, 366 in a leap year.
pub proof fn lemma_year_length(y: int)
    ensures
        days_before_year(y + 1) - days_before_year(y) == if leap(y) {
            366int
        } else {
            365
        },
{
    lemma_step_4(y);
    lemma_step_100(y);
    lemma_step_400(y);
    lemma_mod_mod(y, 4, 25);
    lemma_mod_mod(y, 100, 4);
}

proof fn lemma_step_4(y: int)
    ensures
        (y + 4) / 4 - (y + 3) / 4 == if y % 4 == 0 {
            1int
        } else {
            0
        },
{
}

proof fn lemma_step_100(y: int)
    ensures
        (y + 100) / 100 - (y + 99) / 100 == if y % 100 == 0 {
            1int
        } else {
            0
        },
{
}

proof fn lemma_step_400(y: int)
    ensures
        (y + 400) / 400 - (y + 399) / 400 == if y % 400 == 0 {
            1int
        } else {
            0
        },
{
}

proof fn lemma_months(y: int)
    ensures
        days_before_month(y, 1) == 0,
        days_before_month(y, 2) == 31,
        forall|m: int|
            3 <= m <= 12 ==> #[trigger] days_before_month(y, m) == 31 + days_in_month(y, 2) + (153 * (
            m - 3) + 2) / 5,
{
    reveal_with_fuel(days_before_month, 13);
    assert forall|m: int| 3 <= m <= 12 implies #[trigger] days_before_month(y, m) == 31
        + days_in_month(y, 2) + (153 * (m - 3) + 2) / 5 by {
        assert(m == 3 || m == 4 || m == 5 || m == 6 || m == 7 || m == 8 || m == 9 || m == 10 || m
            == 11 || m == 12);
    }
}

proof fn lemma_march(y: int)
    ensures
        days_before_year(y) == days_before_march(y - 1) + 366,
        days_before_march(y) == days_before_year(y) + if leap(y) {
            0int
        } else {
            -1
        },
{
    lemma_year_length(y);
    assert((y + 3) / 4 == (y - 1) / 4 + 1);
    assert((y + 99) / 100 == (y - 1) / 100 + 1);
    assert((y + 399) / 400 == (y - 1) / 400 + 1);
    assert((y + 4) / 4 == y / 4 + 1);
    assert((y + 100) / 100 == y / 100 + 1);
    assert((y + 400) / 400 == y / 400 + 1);
}

/// On the twelve months the day count is the number of the day.
pub proof fn lemma_day_count(y: int, m: int, d: int)
    requires
        1 <= m <= 12,
    ensures
        day_count(y, m, d) == day_number(y, m, d),
{
    lemma_months(y);
    lemma_march(y);
    assert(days_before_march(1969) == 719_162);
    assert(days_before_year(1970) == 719_528);
    assert(m == 1 ==> (153 * (m + 9) + 2) / 5 == 306);
    assert(m == 2 ==> (153 * (m + 9) + 2) / 5 == 337);
}

proof fn lemma_month_bounds(y: int, m: int, n: int)
    requires
        1 <= m < n <= 13,
    ensures
        days_before_month(y, m) + days_in_month(y, m) <= days_before_month(y, n),
    decreases n - m,
{
    if n > m + 1 {
        lemma_month_bounds(y, m, n - 1);
    }
}

proof fn lemma_year_bounds(y: int, m: int, d: int)
    requires
        valid_date(y, m, d),
    ensures
        0 <= days_before_month(y, m) + d - 1 < days_before_year(y + 1) - days_before_year(y),
{
    lemma_year_length(y);
    lemma_months(y);
}

/// A day has one date: dates with the same day number are the same.
pub proof fn lemma_one_date(y: int, m: int, d: int, y2: int, m2: int, d2: int)
    requires
        valid_date(y, m, d),
        valid_date(y2, m2, d2),
        day_number(y, m, d) == day_number(y2, m2, d2),
    ensures
        y == y2,
        m == m2,
        d == d2,
{
    lemma_year_bounds(y, m, d);
    lemma_year_bounds(y2, m2, d2);
    if y < y2 {
        assert(days_before_year(y + 1) <= days_before_year(y2));
    }
    if y2 < y {
        assert(days_before_year(y2 + 1) <= days_before_year(y));
    }
    if m < m2 {
        lemma_month_bounds(y, m, m2);
    }
    if m2 < m {
        lemma_month_bounds(y, m2, m);
    }
}

/// The date of a date's day number is that date.
pub proof fn lemma_civil_of(y: int, m: int, d: int)
    requires
        valid_date(y, m, d),
    ensures
        civil(day_number(y, m, d)) == (y, m, d),
{
    let (y2, m2, d2) = civil(day_number(y, m, d));
    assert(valid_date(y2, m2, d2) && day_number(y2, m2, d2) == day_number(y, m, d));
    lemma_one_date(y, m, d, y2, m2, d2);
}

/// The year of an era of 400 years that a day of the era falls in.
proof fn lemma_year_of_era(doe: int)
    requires
        0 <= doe <= 146_096,
    ensures
        ({
            let yoe = (doe - doe / 1460 + doe / 36_524 - doe / 146_096) / 365;
            let doy = doe - (365 * yoe + yoe / 4 - yoe / 100);
            &&& 0 <= yoe <= 399
            &&& 0 <= doy <= 365
            &&& doy == 365 ==> leap(yoe + 1)
        }),
{
    let yoe = (doe - doe / 1460 + doe / 36_524 - doe / 146_096) / 365;
    let doy = doe - (365 * yoe + yoe / 4 - yoe / 100);
    let c = doe / 36_524;
    assert(c == 0 || c == 1 || c == 2 || c == 3 || c == 4);
}

proof fn lemma_march_of_era(era: int, yoe: int)
    requires
        0 <= yoe <= 399,
    ensures
        days_before_march(yoe + era * 400) == 146_097 * era + 365 * yoe + yoe / 4 - yoe / 100,
        leap(yoe + era * 400 + 1) == leap(yoe + 1),
{
    let y = yoe + era * 400;
    lemma_fundamental_div_mod_converse(y, 4, yoe / 4 + 100 * era, yoe % 4);
    lemma_fundamental_div_mod_converse(y, 100, yoe / 100 + 4 * era, yoe % 100);
    lemma_fundamental_div_mod_converse(y, 400, era, yoe);
    let n = yoe + 1;
    lemma_fundamental_div_mod_converse(y + 1, 4, n / 4 + 100 * era, n % 4);
    lemma_fundamental_div_mod_converse(y + 1, 100, n / 100 + 4 * era, n % 100);
    lemma_fundamental_div_mod_converse(y + 1, 400, n / 400 + era, n % 400);
}

/// Month and day of a day of a year that begins in March.
proof fn lemma_month_of_year(doy: int, y: int)
    requires
        0 <= doy <= 365,
        doy == 365 ==> leap(y + 1),
    ensures
        ({
            let mp = (5 * doy + 2) / 153;
            let d = doy - (153 * mp + 2) / 5 + 1;
            let m = if mp < 10 {
                mp + 3
            } else {
                mp - 9
            };
            let year = if m <= 2 {
                y + 1
            } else {
                y
            };
            &&& 0 <= mp <= 11
            &&& valid_date(year, m, d)
            &&& day_number(year, m, d) == days_before_march(y) + doy - 719_468
        }),
{
    let mp = (5 * doy + 2) / 153;
    let d = doy - (153 * mp + 2) / 5 + 1;
    let m = if mp < 10 {
        mp + 3
    } else {
        mp - 9
    };
    let year = if m <= 2 {
        y + 1
    } else {
        y
    };
    assert(mp == 0 || mp == 1 || mp == 2 || mp == 3 || mp == 4 || mp == 5 || mp == 6 || mp == 7 || mp
        == 8 || mp == 9 || mp == 10 || mp == 11);
    lemma_day_count(year, m, d);
    assert(days_before_march(1969) == 719_162);
}

/// Every day has a date.
pub proof fn lemma_civil(day: int)
    ensures
        ({
            let (y, m, d) = civil(day);
            valid_date(y, m, d) && day_number(y, m, d) == day
        }),
        day >= -719_528 ==> civil(day).0 >= 0,
{
    let zz = day + 719_468;
    let era = zz / 146_097;
    let doe = zz % 146_097;
    let yoe = (doe - doe / 1460 + doe / 36_524 - doe / 146_096) / 365;
    lemma_year_of_era(doe);
    lemma_march_of_era(era, yoe);
    let y = yoe + era * 400;
    let doy = doe - (365 * yoe + yoe / 4 - yoe / 100);
    lemma_month_of_year(doy, y);
    let mp = (5 * doy + 2) / 153;
    let d = doy - (153 * mp + 2) / 5 + 1;
    let m = if mp < 10 {
        mp + 3
    } else {
        mp - 9
    };
    let year = if m <= 2 {
        y + 1
    } else {
        y
    };
    lemma_civil_of(year, m, d);
    if day >= -719_528 {
        assert(day_number(year, m, d) == day);
        lemma_year_bounds(year, m, d);
        assert(days_before_year(1970) == 719_528);
        assert(year < 0 ==> days_before_year(year + 1) <= 0);
    }
}

/// Days are told apart by their dates as text.
pub proof fn lemma_date_text(a: int, b: int)
    requires
        date_text(civil(a)) == date_text(civil(b)),
    ensures
        a == b,
{
    lemma_civil(a);
    lemma_civil(b);
    let (y, m, d) = civil(a);
    let (y2, m2, d2) = civil(b);
    lemma_date_parts(y, m, d);
    lemma_date_parts(y2, m2, d2);
    text::lemma_padded_once(y, y2, 4);
}

proof fn lemma_two_digits(n: int)
    requires
        0 <= n <= 99,
    ensures
        text::zero_padded(n, 2).len() == 2,
        text::number_of(text::zero_padded(n, 2)) == n,
        text::all_digits(text::zero_padded(n, 2)),
{
    text::lemma_zero_padded(n, 2);
    reveal_with_fuel(text::decimal, 2);
}

proof fn lemma_date_parts(y: int, m: int, d: int)
    requires
        valid_date(y, m, d),
    ensures
        ({
            let t = date_text((y, m, d));
            let n = t.len() as int;
            &&& n >= 6
            &&& t.take(n - 6) == text::zero_padded(y, 4)
            &&& text::number_of(t.subrange(n - 5, n - 3)) == m
            &&& text::number_of(t.skip(n - 2)) == d
        }),
{
    let t = date_text((y, m, d));
    let n = t.len() as int;
    lemma_two_digits(m);
    lemma_two_digits(d);
    assert(t.take(n - 6) =~= text::zero_padded(y, 4));
    assert(t.subrange(n - 5, n - 3) =~= text::zero_padded(m, 2));
    assert(t.skip(n - 2) =~= text::zero_padded(d, 2));
}

/// The session of a second opened at 22:00 of its day, no later than that
/// second and less than a day before it.
pub proof fn lemma_session_holds(ts: int)
    ensures
        session_day(ts) * 86_400 + 22 * 3_600 <= ts,
        ts < session_day(ts) * 86_400 + 22 * 3_600 + 86_400,
{
}

/// Later seconds never fall into an earlier session.
pub proof fn lemma_sessions_in_order(a: int, b: int)
    requires
        a <= b,
    ensures
        session_day(a) <= session_day(b),
{
}

/// Earlier days have earlier dates.
proof fn lemma_dates_in_order(y: int, m: int, d: int, y2: int, m2: int, d2: int)
    requires
        valid_date(y, m, d),
        valid_date(y2, m2, d2),
        day_number(y, m, d) < day_number(y2, m2, d2),
    ensures
        y < y2 || (y == y2 && m < m2) || (y == y2 && m == m2 && d < d2),
{
    lemma_year_bounds(y, m, d);
    lemma_year_bounds(y2, m2, d2);
    if y2 < y {
        assert(days_before_year(y2 + 1) <= days_before_year(y));
    }
    if m2 < m {
        lemma_month_bounds(y, m2, m);
    }
}

/// The seconds of the years that are written with four digits.
pub open spec fn four_digit_year(ts: int) -> bool {
    -62_167_219_200 <= ts <= 253_402_300_799
}

/// The parts of the text of a second: where they stand and what stands before
/// them.
proof fn lemma_time_parts(ts: int)
    requires
        four_digit_year(ts),
    ensures
        ({
            let t = time_text(ts);
            let (y, m, d) = civil(ts / 86_400);
            let s = ts % 86_400;
            let year = text::zero_padded(y, 4);
            let month = text::zero_padded(m, 2);
            let day = text::zero_padded(d, 2);
            let hour = text::zero_padded(s / 3_600, 2);
            let minute = text::zero_padded((s % 3_600) / 60, 2);
            let second = text::zero_padded(s % 60, 2);
            &&& 0 <= y <= 9999
            &&& valid_date(y, m, d)
            &&& day_number(y, m, d) == ts / 86_400
            &&& t.len() == 20
            &&& t.subrange(0, 4) == year
            &&& t.subrange(5, 7) == month
            &&& t.subrange(8, 10) == day
            &&& t.subrange(11, 13) == hour
            &&& t.subrange(14, 16) == minute
            &&& t.subrange(17, 19) == second
            &&& t.take(0) == Seq::<char>::empty()
            &&& t.take(5) == year + seq!['-']
            &&& t.take(8) == year + seq!['-'] + month + seq!['-']
            &&& t.take(11) == date_text((y, m, d)) + seq!['T']
            &&& t.take(14) == date_text((y, m, d)) + seq!['T'] + hour + seq![':']
            &&& t.take(17) == date_text((y, m, d)) + seq!['T'] + hour + seq![':'] + minute
                + seq![':']
            &&& t[4] == '-' && t[7] == '-' && t[10] == 'T' && t[13] == ':' && t[16] == ':'
            &&& t[19] == 'Z'
        }),
{
    let t = time_text(ts);
    let day = ts / 86_400;
    let s = ts % 86_400;
    lemma_civil(day);
    let (y, m, d) = civil(day);
    lemma_year_bounds(y, m, d);
    assert(days_before_year(1970) == 719_528);
    assert(days_before_year(10_000) == 3_652_425);
    assert(y >= 10_000 ==> days_before_year(10_000) <= days_before_year(y));
    text::lemma_zero_padded(y, 4);
    reveal_with_fuel(text::decimal, 4);
    lemma_two_digits(m);
    lemma_two_digits(d);
    lemma_two_digits(s / 3_600);
    lemma_two_digits((s % 3_600) / 60);
    lemma_two_digits(s % 60);
    let year = text::zero_padded(y, 4);
    let month = text::zero_padded(m, 2);
    let dd = text::zero_padded(d, 2);
    let hour = text::zero_padded(s / 3_600, 2);
    let minute = text::zero_padded((s % 3_600) / 60, 2);
    let second = text::zero_padded(s % 60, 2);
    assert(t.subrange(0, 4) =~= year);
    assert(t.subrange(5, 7) =~= month);
    assert(t.subrange(8, 10) =~= dd);
    assert(t.subrange(11, 13) =~= hour);
    assert(t.subrange(14, 16) =~= minute);
    assert(t.subrange(17, 19) =~= second);
    assert(t.take(0) =~= seq![]);
    assert(t.take(5) =~= year + seq!['-']);
    assert(t.take(8) =~= year + seq!['-'] + month + seq!['-']);
    assert(t.take(11) =~= date_text((y, m, d)) + seq!['T']);
    assert(t.take(14) =~= date_text((y, m, d)) + seq!['T'] + hour + seq![':']);
    assert(t.take(17) =~= date_text((y, m, d)) + seq!['T'] + hour + seq![':'] + minute
        + seq![':']);
}

/// The text of a second of the years 0 to 9999 has twenty characters and the
/// form `YYYY-MM-DDThh:mm:ssZ`, with an hour of the day and a minute and a second
/// below sixty.
pub proof fn law_time_text_form(ts: int)
    requires
        four_digit_year(ts),
    ensures
        ({
            let t = time_text(ts);
            &&& t.len() == 20
            &&& t[4] == '-' && t[7] == '-' && t[10] == 'T' && t[13] == ':' && t[16] == ':'
            &&& t[19] == 'Z'
            &&& text::all_digits(t.subrange(0, 4))
            &&& text::all_digits(t.subrange(5, 7))
            &&& text::all_digits(t.subrange(8, 10))
            &&& text::all_digits(t.subrange(11, 13))
            &&& text::all_digits(t.subrange(14, 16))
            &&& text::all_digits(t.subrange(17, 19))
            &&& valid_date(
                text::number_of(t.subrange(0, 4)) as int,
                text::number_of(t.subrange(5, 7)) as int,
                text::number_of(t.subrange(8, 10)) as int,
            )
            &&& text::number_of(t.subrange(11, 13)) < 24
            &&& text::number_of(t.subrange(14, 16)) < 60
            &&& text::number_of(t.subrange(17, 19)) < 60
        }),
{
    lemma_time_parts(ts);
    let (y, m, d) = civil(ts / 86_400);
    let s = ts % 86_400;
    text::lemma_zero_padded(y, 4);
    lemma_two_digits(m);
    lemma_two_digits(d);
    lemma_two_digits(s / 3_600);
    lemma_two_digits((s % 3_600) / 60);
    lemma_two_digits(s % 60);
}

/// Padded digits from `k` on decide where all before them agrees.
proof fn lemma_field_decides(a: Seq<char>, b: Seq<char>, k: int, size: nat, x: int, y: int)
    requires
        0 <= k,
        k + size <= a.len(),
        k + size <= b.len(),
        a.take(k) == b.take(k),
        0 <= x < y,
        a.subrange(k, k + size) == text::zero_padded(x, size),
        b.subrange(k, k + size) == text::zero_padded(y, size),
    ensures
        text::comes_before(a, b),
{
    let u = a.subrange(k, k + size);
    let v = b.subrange(k, k + size);
    text::lemma_zero_padded(x, size);
    text::lemma_zero_padded(y, size);
    text::lemma_digits_in_order(u, v);
    let i = choose|i: int| i < u.len() && text::differs_at(u, v, i);
    text::lemma_part_decides(a, b, k, k + size, i);
}

/// Texts of the years 0 to 9999 are ordered as their times: the earlier second
/// has the smaller text.
pub proof fn law_time_texts_in_order(a: int, b: int)
    requires
        four_digit_year(a),
        four_digit_year(b),
        a < b,
    ensures
        text::comes_before(time_text(a), time_text(b)),
{
    lemma_time_parts(a);
    lemma_time_parts(b);
    let s = time_text(a);
    let t = time_text(b);
    let (y, m, d) = civil(a / 86_400);
    let (y2, m2, d2) = civil(b / 86_400);
    let p = a % 86_400;
    let q = b % 86_400;
    if a / 86_400 < b / 86_400 {
        lemma_dates_in_order(y, m, d, y2, m2, d2);
        if y < y2 {
            lemma_field_decides(s, t, 0, 4, y, y2);
        } else if m < m2 {
            lemma_field_decides(s, t, 5, 2, m, m2);
        } else {
            lemma_field_decides(s, t, 8, 2, d, d2);
        }
    } else {
        assert(a / 86_400 == b / 86_400 && p < q);
        if p / 3_600 < q / 3_600 {
            lemma_field_decides(s, t, 11, 2, p / 3_600, q / 3_600);
        } else if (p % 3_600) / 60 < (q % 3_600) / 60 {
            lemma_field_decides(s, t, 14, 2, (p % 3_600) / 60, (q % 3_600) / 60);
        } else {
            lemma_field_decides(s, t, 17, 2, p % 60, q % 60);
        }
    }
}

/// The date of the day `z`, as year, month and day of the month.
pub fn civil_from_days(z: i64) -> (r: (i64, u32, u32))
    requires
        z <= i64::MAX - 719_468,
    ensures
        valid_date(r.0 as int, r.1 as int, r.2 as int),
        day_number(r.0 as int, r.1 as int, r.2 as int) == z,
        civil(z as int) == (r.0 as int, r.1 as int, r.2 as int),
{
    let zz: i64 = z + 719_468;
    let era: i64 = floor_div(zz, 146_097);
    let doe: i64 = zz - era * 146_097;
    let yoe: i64 = (doe - doe / 1460 + doe / 36_524 - doe / 146_096) / 365;
    proof {
        lemma_year_of_era(doe as int);
        lemma_march_of_era(era as int, yoe as int);
    }
    let y: i64 = yoe + era * 400;
    let doy: i64 = doe - (365 * yoe + yoe / 4 - yoe / 100);
    proof {
        lemma_month_of_year(doy as int, y as int);
    }
    let mp: i64 = (5 * doy + 2) / 153;
    let d: i64 = doy - (153 * mp + 2) / 5 + 1;
    let m: i64 = if mp < 10 {
        mp + 3
    } else {
        mp - 9
    };
    let year: i64 = if m <= 2 {
        y + 1
    } else {
        y
    };
    proof {
        lemma_civil_of(year as int, m as int, d as int);
    }
    (year, m as u32, d as u32)
}

/// The number of the day `y`-`m`-`d`, counted from 1970-01-01.
pub fn days_from_civil(y: i64, m: u32, d: u32) -> (r: i64)
    requires
        i64::MIN + 400 <= y,
        i64::MIN <= (y - 400) / 400 * 146_097,
        y / 400 * 146_097 + 153 * (m + 9) + d + 146_097 <= i64::MAX,
        i64::MIN <= day_count(y as int, m as int, d as int),
    ensures
        r == day_count(y as int, m as int, d as int),
        1 <= m <= 12 ==> r == day_number(y as int, m as int, d as int),
{
    let my: i64 = if m <= 2 {
        y - 1
    } else {
        y
    };
    let era: i64 = floor_div(my, 400);
    let yoe: i64 = my - era * 400;
    let mp: i64 = if m > 2 {
        m as i64 - 3
    } else {
        m as i64 + 9
    };
    let doy: i64 = (153 * mp + 2) / 5 + d as i64 - 1;
    let doe: i64 = yoe * 365 + yoe / 4 - yoe / 100 + doy;
    proof {
        lemma_march_of_era(era as int, yoe as int);
        assert(days_before_march(1969) == 719_162);
        if 1 <= m <= 12 {
            lemma_day_count(y as int, m as int, d as int);
        }
    }
    era * 146_097 + doe - 719_468
}

fn day_of(ts: i64) -> (r: i64)
    ensures
        r == ts as int / 86_400,
        -110_000_000_000_000 <= r <= 110_000_000_000_000,
{
    floor_div(ts, 86_400)
}

fn second_of_day(ts: i64) -> (r: i64)
    ensures
        r == ts as int % 86_400,
        0 <= r < 86_400,
{
    if ts >= 0 {
        ts % 86_400
    } else {
        86_399 - (-(ts + 1)) % 86_400
    }
}

fn day_of_session(ts: i64) -> (r: i64)
    ensures
        r == session_day(ts as int),
        -110_000_000_000_001 <= r <= 110_000_000_000_000,
{
    let day: i64 = day_of(ts);
    if second_of_day(ts) < DAY_OPEN_HOUR * 3_600 {
        day - 1
    } else {
        day
    }
}

/// The weekday (Monday being 0) of the session that holds the second `ts`.
pub fn session_weekday(ts: i64) -> (r: u32)
    ensures
        r == weekday(session_day(ts as int)),
        r <= 6,
{
    let day: i64 = day_of_session(ts) + 3;
    (day - floor_div(day, 7) * 7) as u32
}

/// The hour, UTC, of the second `ts`.
pub fn hour_of(ts: i64) -> (r: i64)
    ensures
        r == (ts as int % 86_400) / 3_600,
        0 <= r <= 23,
{
    second_of_day(ts) / 3_600
}

fn push_date(out: &mut String, day: i64)
    requires
        day <= i64::MAX - 719_468,
    ensures
        final(out)@ == old(out)@ + date_text(civil(day as int)),
{
    let (y, m, d): (i64, u32, u32) = civil_from_days(day);
    push_zero_padded(out, y, 4);
    out.push('-');
    push_zero_padded(out, m as i64, 2);
    out.push('-');
    push_zero_padded(out, d as i64, 2);
    assert(out@ =~= old(out)@ + date_text(civil(day as int)));
}

/// The date, as `YYYY-MM-DD`, of the session that holds the second `ts`.
pub fn session_date_key(ts: i64) -> (r: String)
    ensures
        r@ == date_text(civil(session_day(ts as int))),
{
    let mut out: String = String::new();
    push_date(&mut out, day_of_session(ts));
    assert(out@ =~= date_text(civil(session_day(ts as int))));
    out
}

/// The second at which the session that holds the second `ts` opened. It comes
/// from the session's date, so a late first bar maps to the true opening.
pub fn session_start_ts(ts: i64) -> (r: i64)
    requires
        i64::MIN <= session_day(ts as int) * 86_400,
    ensures
        r == session_day(ts as int) * 86_400 + 22 * 3_600,
{
    day_of_session(ts) * 86_400 + DAY_OPEN_HOUR * 3_600
}

/// The second `ts` as `YYYY-MM-DDThh:mm:ssZ`.
pub fn iso_utc(ts: i64) -> (r: String)
    ensures
        r@ == time_text(ts as int),
{
    let t: i64 = second_of_day(ts);
    let mut out: String = String::new();
    push_date(&mut out, day_of(ts));
    out.push('T');
    push_zero_padded(&mut out, t / 3_600, 2);
    out.push(':');
    push_zero_padded(&mut out, (t % 3_600) / 60, 2);
    out.push(':');
    push_zero_padded(&mut out, t % 60, 2);
    out.push('Z');
    assert(out@ =~= time_text(ts as int));
    out
}

/// `n / d` rounded down.
fn floor_div(n: i64, d: i64) -> (q: i64)
    requires
        d > 0,
    ensures
        q == n as int / d as int,
        q * d <= n < q * d + d,
{
    proof {
        lemma_fundamental_div_mod(n as int, d as int);
        lemma_mul_is_commutative(d as int, n as int / d as int);
    }
    if n >= 0 {
        n / d
    } else {
        let k: i64 = -(n + 1);
        proof {
            lemma_fundamental_div_mod(k as int, d as int);
            let j = k as int / d as int;
            let r = k as int % d as int;
            assert(n == (-j - 1) * d + (d - 1 - r)) by (nonlinear_arith)
                requires
                    -(n + 1) == d * j + r,
            ;
            lemma_fundamental_div_mod_converse(
                n as int,
                d as int,
                -j - 1,
                d - 1 - r,
            );
        }
        -(k / d) - 1
    }
}

}
