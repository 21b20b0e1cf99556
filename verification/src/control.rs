//! When a session is, and where its point of control lies.

use crate::calendar;
use crate::double;
use crate::double::Double;
use crate::engine;
use crate::profile;
use crate::profile::Bar;
use vstd::prelude::*;

verus! {

// ---------------------------------------------------------------------------
// Sessions
// ---------------------------------------------------------------------------

/// The session of a day runs from 22:00 UTC of that day to 22:00 UTC of the next.
pub proof fn law_session_window(ts: int, day: int)
    ensures
        calendar::session_day(ts) == day <==> day * 86_400 + 79_200 <= ts < (day + 1) * 86_400
            + 79_200,
{
}

/// The days of the week follow each other, and the first day of 1970 was a
/// Thursday. Monday is 0.
pub proof fn law_weekdays(day: int)
    ensures
        0 <= calendar::weekday(day) < 7,
        calendar::weekday(0) == 3,
        calendar::weekday(day + 1) == if calendar::weekday(day) == 6 {
            0
        } else {
            calendar::weekday(day) + 1
        },
        calendar::weekday(day + 7) == calendar::weekday(day),
{
}

/// Sessions that open on a Friday or a Saturday are not traded; all others are.
pub proof fn law_trading_days(ts: int)
    ensures
        engine::trading_day(ts) <==> calendar::weekday(calendar::session_day(ts)) != 4
            && calendar::weekday(calendar::session_day(ts)) != 5,
{
}

/// Days are counted on from the first of January 1970. The next day of a month is
/// one more; the first of the next month follows the last of this one; the first
/// of January follows the last of December. February has a day more in a leap
/// year: every fourth year but the centuries that four hundred does not divide.
pub proof fn law_calendar(y: int, m: int, d: int)
    requires
        1 <= m <= 12,
    ensures
        calendar::day_number(1970, 1, 1) == 0,
        calendar::day_number(y, m, d + 1) == calendar::day_number(y, m, d) + 1,
        m < 12 ==> calendar::day_number(y, m + 1, 1) == calendar::day_number(
            y,
            m,
            calendar::days_in_month(y, m),
        ) + 1,
        calendar::day_number(y + 1, 1, 1) == calendar::day_number(y, 12, 31) + 1,
        calendar::days_in_month(y, 2) == if y % 4 == 0 && (y % 100 != 0 || y % 400 == 0) {
            29int
        } else {
            28
        },
        m == 4 || m == 6 || m == 9 || m == 11 ==> calendar::days_in_month(y, m) == 30,
        m != 2 && m != 4 && m != 6 && m != 9 && m != 11 ==> calendar::days_in_month(y, m) == 31,
{
    calendar::lemma_year_length(y);
    reveal_with_fuel(calendar::days_before_month, 13);
}

// ---------------------------------------------------------------------------
// Profiles
// ---------------------------------------------------------------------------

/// Whether the prices of all bars are numbers.
pub open spec fn priced(bars: Seq<Bar>) -> bool {
    forall|i: int|
        0 <= i < bars.len() ==> (#[trigger] bars[i]).h.finite() && bars[i].l.finite()
}

/// The highest price is the high of some bar, and no bar has a higher one; the
/// lowest is the low of some bar, and no bar has a lower one.
pub proof fn law_range_of_some_bars(bars: Seq<Bar>)
    requires
        priced(bars),
    ensures
        !profile::highest(bars).nan() && !profile::lowest(bars).nan(),
        forall|i: int|
            0 <= i < bars.len() ==> (#[trigger] bars[i]).h.at_most(profile::highest(bars))
                && profile::lowest(bars).at_most(bars[i].l),
        bars.len() > 0 ==> exists|i: int|
            0 <= i < bars.len() && (#[trigger] bars[i]).h.same_number(profile::highest(bars)),
        bars.len() > 0 ==> exists|i: int|
            0 <= i < bars.len() && (#[trigger] bars[i]).l.same_number(profile::lowest(bars)),
    decreases bars.len(),
{
    if bars.len() > 0 {
        let rest = bars.drop_last();
        let b = bars[bars.len() - 1];
        assert forall|i: int| 0 <= i < rest.len() implies (#[trigger] rest[i]).h.finite()
            && rest[i].l.finite() by {
            assert(rest[i] == bars[i]);
        }
        law_range_of_some_bars(rest);
        assert(b.h.finite() && b.l.finite());
        lemma_extremes(b.h);
        lemma_extremes(b.l);
        let hi = profile::highest(rest);
        let lo = profile::lowest(rest);
        assert forall|i: int| 0 <= i < bars.len() implies (#[trigger] bars[i]).h.at_most(
            profile::highest(bars),
        ) && profile::lowest(bars).at_most(bars[i].l) by {
            if i < rest.len() {
                assert(rest[i] == bars[i]);
            }
        }
        if hi.below(b.h) || rest.len() == 0 {
            assert(bars[bars.len() - 1].h.same_number(profile::highest(bars)));
        } else {
            let k = choose|k: int|
                0 <= k < rest.len() && (#[trigger] rest[k]).h.same_number(hi);
            assert(bars[k].h.same_number(profile::highest(bars)));
        }
        if b.l.below(lo) || rest.len() == 0 {
            assert(bars[bars.len() - 1].l.same_number(profile::lowest(bars)));
        } else {
            let k = choose|k: int| 0 <= k < rest.len() && (#[trigger] rest[k]).l.same_number(lo);
            assert(bars[k].l.same_number(profile::lowest(bars)));
        }
    }
}

/// No finite number lies beyond the greatest and the least one.
proof fn lemma_extremes(x: Double)
    requires
        x.finite(),
    ensures
        (Double { bits: profile::LEAST }).at_most(x),
        x.at_most(Double { bits: profile::GREATEST }),
{
    let top = (profile::GREATEST) as nat;
    double::lemma_value_sign(x);
    double::lemma_value_sign(Double { bits: profile::GREATEST });
    double::lemma_value_sign(Double { bits: profile::LEAST });
    double::lemma_units_order(x.magnitude(), top);
    double::lemma_units_order(top, x.magnitude());
}

/// Fewer than eight bars, or bars without a range, have no profile. Others have
/// 48 bins of one width between their lowest and their highest price, and the
/// point of control is the middle of the first bin that no other exceeds.
pub proof fn law_point_of_control(bars: Seq<Bar>, start: i64)
    ensures
        ({
            let hi = profile::highest(bars);
            let lo = profile::lowest(bars);
            &&& profile::profile_of(bars, start) is None <==> bars.len() < 8 || hi.at_most(lo)
            &&& profile::profile_of(bars, start) matches Some(p) ==> {
                let k = profile::peak(p.prof, 48);
                &&& p.hi == hi && p.lo == lo && p.start == start
                &&& p.w == hi.difference(lo).quotient(Double::whole(48))
                &&& p.poc == lo.sum(
                    Double::whole(k as int).sum(Double::ratio(1, 2)).product(p.w),
                )
                &&& p.prof == profile::filled(
                    bars,
                    start,
                    hi,
                    lo,
                    p.w,
                    profile::buckets_used(bars, start),
                )
            }
        }),
{
}

/// The bin of a peak: no other exceeds it, and those before it hold less.
pub proof fn law_peak_is_the_first_largest(bars: Seq<Bar>, start: i64)
    requires
        profile::profile_of(bars, start) is Some,
        crate::volume::volumes_told(bars),
    ensures
        ({
            let p = profile::profile_of(bars, start)->0;
            let k = profile::peak(p.prof, 48) as int;
            &&& 0 <= k < 48
            &&& p.prof.len() == 48
            &&& forall|i: int| 0 <= i < 48 ==> (#[trigger] p.prof[i]).at_most(p.prof[k])
            &&& forall|i: int| 0 <= i < k ==> (#[trigger] p.prof[i]).below(p.prof[k])
        }),
{
    let p = profile::profile_of(bars, start)->0;
    crate::volume::law_profile_keeps_the_volume(bars, start);
    profile::law_first_peak(p.prof, 48);
}

/// A bucket is four hours of the session; what comes before its start counts in
/// the first.
pub proof fn law_buckets_of_four_hours(b: Bar, start: i64, k: int)
    requires
        0 <= k,
    ensures
        b.ts < start ==> profile::bucket_of(b, start) == 0,
        start + 14_400 * k <= b.ts < start + 14_400 * (k + 1) ==> profile::bucket_of(b, start) == k,
{
}

/// The bin of a price: how many widths it lies above the lowest price, cut to a
/// whole number and held between the least one and the last.
pub proof fn law_bin_of_a_price(x: Double, lo: Double, w: Double, least: int)
    requires
        0 <= least < 48,
    ensures
        ({
            let n = x.difference(lo).quotient(w).truncated();
            &&& least <= profile::bin_of(x, lo, w, least) <= 47
            &&& least <= n <= 47 ==> profile::bin_of(x, lo, w, least) == n
            &&& n < least ==> profile::bin_of(x, lo, w, least) == least
            &&& n > 47 ==> profile::bin_of(x, lo, w, least) == 47
        }),
{
}

/// The volume of a bucket is shared out evenly over the bins from its lowest to
/// its highest price, and the other bins are left alone.
pub proof fn law_volume_is_shared_out(
    prof: Seq<Double>,
    bucket: Seq<Bar>,
    hi: Double,
    lo: Double,
    w: Double,
    k: int,
)
    requires
        0 <= k < prof.len(),
        bucket.len() > 0,
    ensures
        ({
            let a = profile::bin_of(profile::lowest(bucket), lo, w, 0);
            let z = profile::bin_of(profile::highest(bucket).smaller(hi), lo, w, a);
            let share = profile::volume(bucket).quotient(Double::whole(z - a + 1));
            &&& a <= k <= z ==> profile::spread(prof, bucket, hi, lo, w)[k] == prof[k].sum(share)
            &&& k < a || k > z ==> profile::spread(prof, bucket, hi, lo, w)[k] == prof[k]
        }),
{
}

/// The volume of some bars is added up in their order.
pub proof fn law_volume_is_added_up(bars: Seq<Bar>, b: Bar)
    ensures
        profile::volume(seq![]) == (Double { bits: 0 }),
        profile::volume(bars.push(b)) == profile::volume(bars).sum(b.v),
{
    assert(bars.push(b).drop_last() =~= bars);
}

} // verus!
