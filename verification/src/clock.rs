use vstd::prelude::*;
use std::time::{Duration, SystemTime, SystemTimeError};
use chrono::NaiveDate;

verus! {

/// Ticks of 100 ns: the unit of the timestamps that the queue keeps in shared
/// memory, counted from midnight, January 1 of the year 1 (UTC).
pub const TICKS_PER_SECOND: u64 = 10_000_000;

pub const NANOS_PER_TICK: u64 = 100;

pub const NANOS_PER_SECOND: u64 = 1_000_000_000;

#[verifier::external_type_specification]
#[verifier::external_body]
pub struct ExSystemTime(std::time::SystemTime);

#[verifier::external_type_specification]
#[verifier::external_body]
pub struct ExSystemTimeError(std::time::SystemTimeError);

/// The system clock's reading, through `SystemTime::now`. It depends on the
/// clock alone, so nothing is stated of it.
#[verifier::external_body]
fn system_time_now() -> (r: SystemTime) {
    SystemTime::now()
}

/// How long after the Unix epoch `time` lies, through
/// `SystemTime::duration_since(UNIX_EPOCH)`; the error holds how long before
/// it `time` lies. Nothing about the opaque values is stated here.
#[verifier::external_body]
fn duration_since_unix_epoch(time: &SystemTime) -> (r: Result<Duration, SystemTimeError>) {
    time.duration_since(std::time::UNIX_EPOCH)
}

/// How far before the Unix epoch the time of `error` lies, through
/// `SystemTimeError::duration`.
#[verifier::external_body]
fn time_error_duration(error: &SystemTimeError) -> (r: Duration) {
    error.duration()
}

/// The whole seconds of `duration`, through `Duration::as_secs`.
#[verifier::external_body]
fn duration_seconds(duration: &Duration) -> (r: u64) {
    duration.as_secs()
}

/// The nanoseconds of `duration` beyond its whole seconds, through
/// `Duration::subsec_nanos`, which std documents to be less than one billion.
#[verifier::external_body]
fn duration_subsec_nanos(duration: &Duration) -> (r: u32)
    ensures
        r < NANOS_PER_SECOND,
{
    duration.subsec_nanos()
}

/// The Unix timestamp, in seconds, of midnight UTC at the start of the day
/// `day` of month `month` of year `year` in the proleptic Gregorian
/// calendar, or `None` where there is no such day; the calendar is chrono's.
pub uninterp spec fn date_unix_seconds(year: i32, month: u32, day: u32) -> Option<i64>;

/// Midnight UTC of a calendar date as a Unix timestamp, through
/// `NaiveDate::from_ymd_opt`: the date's midnight is converted to UTC and
/// read back as a timestamp. The result depends on the arguments alone.
#[verifier::external_body]
fn unix_seconds_of_date(year: i32, month: u32, day: u32) -> (r: Option<i64>)
    ensures
        r == date_unix_seconds(year, month, day),
{
    match NaiveDate::from_ymd_opt(year, month, day) {
        Some(date) => Some(date.and_time(chrono::NaiveTime::MIN).and_utc().timestamp()),
        None => None,
    }
}

/// The Unix timestamp of midnight, January 1 of the year 1 (UTC), from which
/// ticks are counted.
pub fn year_one_unix_seconds() -> (r: Option<i64>)
    ensures
        r == date_unix_seconds(1, 1, 1),
{
    unix_seconds_of_date(1, 1, 1)
}

/// The signed number of nanoseconds of a time `seconds` s and `nanos` ns
/// after the Unix epoch, or before it where `after_epoch` is false.
pub open spec fn signed_nanos(after_epoch: bool, seconds: int, nanos: int) -> int {
    if after_epoch {
        seconds * NANOS_PER_SECOND + nanos
    } else {
        -(seconds * NANOS_PER_SECOND + nanos)
    }
}

/// The Unix timestamp of a time `seconds` s and `nanos` ns after the Unix
/// epoch, or before it where `after_epoch` is false: the whole seconds,
/// rounded down, and the nanoseconds past them; `None` where the seconds do
/// not fit an `i64`.
pub fn unix_timestamp(after_epoch: bool, seconds: u64, nanos: u32) -> (r: Option<(i64, u32)>)
    requires
        nanos < NANOS_PER_SECOND,
    ensures
        r is Some <==> i64::MIN <= signed_nanos(after_epoch, seconds as int, nanos as int)
            / NANOS_PER_SECOND as int <= i64::MAX,
        r matches Some((s, n)) ==> {
            &&& s == signed_nanos(after_epoch, seconds as int, nanos as int) / NANOS_PER_SECOND as int
            &&& n == signed_nanos(after_epoch, seconds as int, nanos as int) % NANOS_PER_SECOND as int
        },
{
    let ghost total = signed_nanos(after_epoch, seconds as int, nanos as int);
    if after_epoch {
        proof {
            vstd::arithmetic::div_mod::lemma_fundamental_div_mod_converse(
                total,
                NANOS_PER_SECOND as int,
                seconds as int,
                nanos as int,
            );
        }
        if seconds > i64::MAX as u64 {
            None
        } else {
            Some((seconds as i64, nanos))
        }
    } else if nanos == 0 {
        proof {
            vstd::arithmetic::div_mod::lemma_fundamental_div_mod_converse(
                total,
                NANOS_PER_SECOND as int,
                -(seconds as int),
                0,
            );
        }
        if seconds > 9_223_372_036_854_775_808 {
            None
        } else if seconds == 9_223_372_036_854_775_808 {
            Some((i64::MIN, 0))
        } else {
            Some((-(seconds as i64), 0))
        }
    } else {
        proof {
            vstd::arithmetic::div_mod::lemma_fundamental_div_mod_converse(
                total,
                NANOS_PER_SECOND as int,
                -(seconds as int) - 1,
                NANOS_PER_SECOND - nanos,
            );
        }
        if seconds > i64::MAX as u64 {
            None
        } else {
            Some((-(seconds as i64) - 1, (NANOS_PER_SECOND as u32) - nanos))
        }
    }
}

/// The ticks from the time whose Unix timestamp is `epoch_seconds` to the
/// time whose Unix timestamp is `seconds` s and `nanos` ns: whole seconds
/// count 10,000,000 ticks, and the nanoseconds count one tick per whole
/// 100 ns.
pub open spec fn ticks_since(epoch_seconds: int, seconds: int, nanos: int) -> int {
    (seconds - epoch_seconds) * TICKS_PER_SECOND + nanos / NANOS_PER_TICK as int
}

/// The ticks `ticks_since` counts, or `None` where they are negative (a time
/// before the epoch) or exceed a `u64`.
pub fn ticks_between(epoch_seconds: i64, seconds: i64, nanos: u32) -> (r: Option<u64>)
    requires
        nanos < NANOS_PER_SECOND,
    ensures
        r is Some <==> 0 <= ticks_since(epoch_seconds as int, seconds as int, nanos as int) <= u64::MAX,
        r matches Some(ticks) ==> ticks == ticks_since(epoch_seconds as int, seconds as int, nanos as int),
{
    let difference: i128 = seconds as i128 - epoch_seconds as i128;
    if difference < 0 {
        return None;
    }
    let ticks: i128 = difference * (TICKS_PER_SECOND as i128) + (nanos / (NANOS_PER_TICK as u32)) as i128;
    if ticks > u64::MAX as i128 {
        None
    } else {
        Some(ticks as u64)
    }
}

/// The current time in ticks since midnight, January 1 of the year 1 (UTC),
/// from the system clock's reading; `None` where the reading lies before the
/// year 1 or so far ahead that its ticks exceed a `u64`.
pub fn current_ticks() -> (r: Option<u64>)
    ensures
        r matches Some(ticks) ==> {
            &&& date_unix_seconds(1, 1, 1) is Some
            &&& exists|seconds: i64, nanos: u32|
                nanos < NANOS_PER_SECOND && ticks == ticks_since(
                    date_unix_seconds(1, 1, 1)->0 as int,
                    seconds as int,
                    nanos as int,
                )
        },
{
    let epoch = match year_one_unix_seconds() {
        Some(epoch) => epoch,
        None => return None,
    };
    let now = system_time_now();
    let (after_epoch, elapsed) = match duration_since_unix_epoch(&now) {
        Ok(elapsed) => (true, elapsed),
        Err(error) => (false, time_error_duration(&error)),
    };
    let seconds = duration_seconds(&elapsed);
    let nanos = duration_subsec_nanos(&elapsed);
    match unix_timestamp(after_epoch, seconds, nanos) {
        Some((s, n)) => {
            let r = ticks_between(epoch, s, n);
            proof {
                if r is Some {
                    assert(n < NANOS_PER_SECOND && r->0 == ticks_since(epoch as int, s as int, n as int));
                }
            }
            r
        },
        None => None,
    }
}

} // verus!
