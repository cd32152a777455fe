//! Time values and the calls into chrono that read or print them.
//!
//! A time is a local wall-clock instant: the number of seconds from
//! 1970-01-01 00:00 on the local calendar. The library accepts times in
//! `[MIN_TIME, MAX_TIME]`, a range (about 253 000 years either side of 1970)
//! that chrono's dates cover.

use vstd::prelude::*;

verus! {

/// The earliest time the library accepts.
pub const MIN_TIME: i64 = -8_000_000_000_000;

/// The latest time the library accepts.
pub const MAX_TIME: i64 = 8_000_000_000_000;

/// Seconds in one minute.
pub const SECONDS_PER_MINUTE: i64 = 60;

/// Seconds in one day.
pub const SECONDS_PER_DAY: i64 = 86_400;

/// A time within the accepted range.
pub open spec fn is_time(t: int) -> bool {
    MIN_TIME <= t <= MAX_TIME
}

/// The calendar day (days from 1970-01-01) on which a time falls.
pub open spec fn day_of(t: int) -> int {
    t / (SECONDS_PER_DAY as int)
}

/// What chrono prints for a time in the form `%Y-%m-%d %H:%M`.
pub uninterp spec fn minute_text(t: int) -> Seq<char>;

/// Relies on `chrono::DateTime::from_timestamp` (which returns `Some` for every
/// time of the accepted range) and `DateTime::format` with `%Y-%m-%d %H:%M`:
/// the text depends on the time alone.
#[verifier::external_body]
pub(crate) fn format_minute(t: i64) -> (r: String)
    requires
        is_time(t as int),
    ensures
        r@ == minute_text(t as int),
{
    match chrono::DateTime::from_timestamp(t, 0) {
        Some(dt) => dt.format("%Y-%m-%d %H:%M").to_string(),
        None => String::new(),
    }
}

/// What chrono prints for a time in the form `%H:%M`.
pub uninterp spec fn clock_text(t: int) -> Seq<char>;

/// Relies on `chrono::DateTime::from_timestamp` (which returns `Some` for every
/// time of the accepted range) and `DateTime::format` with `%H:%M`: the text
/// depends on the time alone.
#[verifier::external_body]
pub(crate) fn format_clock(t: i64) -> (r: String)
    requires
        is_time(t as int),
    ensures
        r@ == clock_text(t as int),
{
    match chrono::DateTime::from_timestamp(t, 0) {
        Some(dt) => dt.format("%H:%M").to_string(),
        None => String::new(),
    }
}

/// Relies on `chrono::Local::now`: the current local wall-clock time in
/// microseconds, the resolution of creation stamps. Nothing is known of its
/// value.
#[verifier::external_body]
pub(crate) fn now() -> (r: i64) {
    chrono::Local::now().naive_local().and_utc().timestamp_micros()
}


/// The calendar day on which a time falls.
pub fn day_number(t: i64) -> (r: i64)
    ensures
        r == day_of(t as int),
{
    if t >= 0 {
        t / SECONDS_PER_DAY
    } else {
        let u: i64 = -(t + 1);
        let d: i64 = u / SECONDS_PER_DAY;
        proof {
            let ui = u as int;
            let di = d as int;
            assert(0 <= ui - 86400 * di < 86400);
            assert(t as int == 86400 * (-di - 1) + (86399 - (ui - 86400 * di)));
            vstd::arithmetic::div_mod::lemma_fundamental_div_mod_converse(
                t as int,
                86400,
                -di - 1,
                86399 - (ui - 86400 * di),
            );
        }
        -d - 1
    }
}


/// Day of the week of a time, Monday being 0 (1970-01-01 was a Thursday).
pub open spec fn weekday_of(t: int) -> int {
    (day_of(t) + 3) % 7
}

/// Day of the week of a time, Monday being 0.
pub fn weekday_number(t: i64) -> (r: u32)
    ensures
        r == weekday_of(t as int),
{
    let x: i128 = day_number(t) as i128 + 3;
    if x >= 0 {
        (x % 7) as u32
    } else {
        let y: i128 = -x;
        let m: i128 = y % 7;
        let q: i128 = y / 7;
        proof {
            assert(y == 7 * q + m);
        }
        if m == 0 {
            proof {
                vstd::arithmetic::div_mod::lemma_fundamental_div_mod_converse(x as int, 7, -q as int, 0);
            }
            0
        } else {
            proof {
                vstd::arithmetic::div_mod::lemma_fundamental_div_mod_converse(
                    x as int,
                    7,
                    -q - 1,
                    7 - m,
                );
            }
            (7 - m) as u32
        }
    }
}

} // verus!
