//! The wall clock, and what is made of its readings.

use crate::double::Double;
use std::time::{Duration, SystemTime, SystemTimeError};
use vstd::prelude::*;

verus! {

/// `std::time::SystemTime`, a moment of the wall clock.
#[verifier::external_type_specification]
#[verifier::external_body]
pub struct ExSystemTime(SystemTime);

/// `std::time::SystemTimeError`, what a moment before the epoch gives.
#[verifier::external_type_specification]
#[verifier::external_body]
pub struct ExSystemTimeError(SystemTimeError);

/// `SystemTime::now` reads the wall clock. Nothing is claimed of the reading.
pub assume_specification[ SystemTime::now ]() -> SystemTime
;

/// `Duration::as_nanos` counts the nanoseconds of a duration. A duration holds
/// its whole seconds in 64 bits, so there are no more of them than fit there.
/// Which count it is rests on the clock and is left open.
pub assume_specification[ Duration::as_nanos ](d: &Duration) -> (r: u128)
    ensures
        r / 1_000_000_000 <= u64::MAX,
;

/// `SystemTime::duration_since` at the Unix epoch: the time from there to `t`,
/// or an error where `t` is earlier. Nothing is claimed of which it is.
#[verifier::external_body]
fn since_epoch(t: &SystemTime) -> Result<Duration, SystemTimeError> {
    t.duration_since(std::time::UNIX_EPOCH)
}

/// One reading of the clock: seconds and nanoseconds since the Unix epoch.
#[derive(Clone, Copy, Debug)]
pub struct Reading {
    pub secs: u64,
    pub nanos: u32,
}

impl Reading {
    /// The nanoseconds stay below a second.
    pub open spec fn wf(self) -> bool {
        self.nanos < 1_000_000_000
    }

    /// The reading in seconds, as a double.
    pub open spec fn as_double(self) -> Double {
        Double::whole(self.secs as int).sum(
            Double::whole(self.nanos as int).quotient(Double::whole(1_000_000_000)),
        )
    }

    /// The reading in whole milliseconds.
    pub open spec fn as_millis(self) -> nat {
        (self.secs * 1000 + self.nanos as int / 1_000_000) as nat
    }

    /// The reading that is so many nanoseconds after the epoch.
    pub fn of_nanos(total: u128) -> (r: Reading)
        requires
            total / 1_000_000_000 <= u64::MAX,
        ensures
            r.wf(),
            r.secs * 1_000_000_000 + r.nanos == total,
    {
        Reading {
            secs: (total / 1_000_000_000) as u64,
            nanos: (total % 1_000_000_000) as u32,
        }
    }

    /// The reading in seconds, as a double.
    pub fn seconds(self) -> (r: Double)
        ensures
            r == self.as_double(),
    {
        Double::from_u64(self.secs).plus(
            Double::from_u64(self.nanos as u64).over(Double::from_u64(1_000_000_000)),
        )
    }

    /// The reading in whole milliseconds.
    pub fn millis(self) -> (r: u128)
        ensures
            r == self.as_millis(),
    {
        self.secs as u128 * 1000 + (self.nanos / 1_000_000) as u128
    }
}

/// Whole seconds of a reading; 0 where the clock stands before the epoch.
pub open spec fn stamp(reading: Option<Reading>) -> i64 {
    match reading {
        Some(r) => r.secs as i64,
        None => 0,
    }
}

/// Seconds of a reading as a double; 0 where the clock stands before the epoch.
pub open spec fn fine_stamp(reading: Option<Reading>) -> Double {
    match reading {
        Some(r) => r.as_double(),
        None => Double { bits: 0 },
    }
}

/// Whole milliseconds of a reading; none where the clock stands before the
/// epoch.
pub open spec fn whole_millis(reading: Option<Reading>) -> Option<nat> {
    match reading {
        Some(r) => Some(r.as_millis()),
        None => None,
    }
}

/// The reading so many nanoseconds after the epoch; none where the clock stands
/// before it.
pub open spec fn reading_after(since: Option<u128>) -> Option<Reading> {
    match since {
        Some(n) => Some(
            Reading { secs: (n / 1_000_000_000) as u64, nanos: (n % 1_000_000_000) as u32 },
        ),
        None => None,
    }
}

/// Whether so many nanoseconds have a reading: their seconds fit.
pub open spec fn readable(since: Option<u128>) -> bool {
    since matches Some(n) ==> n / 1_000_000_000 <= u64::MAX
}

/// The reading so many nanoseconds after the epoch; `None` where the clock
/// stands before it.
pub fn reading_of(since: Option<u128>) -> (r: Option<Reading>)
    requires
        readable(since),
    ensures
        r == reading_after(since),
        r is Some <==> since is Some,
        r matches Some(x) ==> x.wf() && x.secs * 1_000_000_000 + x.nanos == since->0,
{
    match since {
        Some(n) => Some(Reading::of_nanos(n)),
        None => None,
    }
}

/// Reads the clock; `None` where it stands before the epoch. Where it stands is
/// not said: what is returned is the reading of what it gave.
pub fn read_clock() -> (r: Option<Reading>)
    ensures
        exists|since: Option<u128>| readable(since) && r == #[trigger] reading_after(since),
        r matches Some(x) ==> x.wf(),
{
    let since: Option<u128> = match since_epoch(&SystemTime::now()) {
        Ok(d) => Some(d.as_nanos()),
        Err(_) => None,
    };
    reading_of(since)
}

/// Whole seconds of a reading; 0 where the clock stands before the epoch.
pub fn stamp_of(reading: Option<Reading>) -> (r: i64)
    ensures
        r == stamp(reading),
{
    match reading {
        Some(x) => x.secs as i64,
        None => 0,
    }
}

/// Seconds of a reading as a double; 0 where the clock stands before the epoch.
pub fn fine_stamp_of(reading: Option<Reading>) -> (r: Double)
    ensures
        r == fine_stamp(reading),
{
    match reading {
        Some(x) => x.seconds(),
        None => Double { bits: 0 },
    }
}

/// The time in whole seconds since the Unix epoch.
pub fn now_ts() -> (r: i64)
    ensures
        exists|reading: Option<Reading>|
            r == stamp(reading) && (reading matches Some(x) ==> x.wf()),
{
    let reading: Option<Reading> = read_clock();
    stamp_of(reading)
}

/// The time in seconds since the Unix epoch, as a double.
pub fn now_ts_f64() -> (r: Double)
    ensures
        exists|reading: Option<Reading>|
            r == fine_stamp(reading) && (reading matches Some(x) ==> x.wf()),
{
    let reading: Option<Reading> = read_clock();
    fine_stamp_of(reading)
}

/// Whole milliseconds of a reading; `None` where the clock stands before the
/// epoch.
pub fn millis_of(reading: Option<Reading>) -> (r: Option<u128>)
    ensures
        match whole_millis(reading) {
            Some(t) => r matches Some(x) && x == t,
            None => r is None,
        },
{
    match reading {
        Some(x) => Some(x.millis()),
        None => None,
    }
}

/// The time in whole milliseconds since the Unix epoch; `None` where the clock
/// stands before it. Where it stands is not said: what is returned is made of
/// its reading.
pub fn now_ms() -> (r: Option<u128>)
    ensures
        exists|reading: Option<Reading>|
            (reading matches Some(x) ==> x.wf()) && match #[trigger] whole_millis(reading) {
                Some(t) => r matches Some(x) && x == t,
                None => r is None,
            },
{
    let reading: Option<Reading> = read_clock();
    let r: Option<u128> = millis_of(reading);
    assert(whole_millis(reading) is Some == r is Some);
    r
}

} // verus!
