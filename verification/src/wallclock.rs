//! Times of day, for messages such as "valid until 21:47:30".
//!
//! A dialog's text cannot change once it is shown, so that it names a moment and not a
//! remaining time.

use vstd::prelude::*;
use vstd::string::*;

use crate::text::{two_digits, two_digits_of};

verus! {

/// The seconds of a day.
pub const DAY: i64 = 86_400;

/// The second `secs` of a day as `HH:MM:SS`; what exceeds a day, in either direction,
/// wraps around.
pub open spec fn clock_text(secs: int) -> Seq<char> {
    let s = (secs % 86_400) as nat;
    two_digits(s / 3600) + ":"@ + two_digits((s % 3600) / 60) + ":"@ + two_digits(s % 60)
}

/// The second `secs` of a day as `HH:MM:SS`.
pub fn fmt_hms(secs: i64) -> (r: String)
    ensures
        r@ == clock_text(secs as int),
{
    let s: u64 = match secs.checked_rem_euclid(DAY) {
        Some(s) => s as u64,
        None => 0,
    };
    let mut r = two_digits_of(s / 3600);
    r.append(":");
    r.append(two_digits_of((s % 3600) / 60).as_str());
    r.append(":");
    r.append(two_digits_of(s % 60).as_str());
    r
}

/// The time of day `after` seconds from now, given how many seconds of the local day
/// have passed; `None` where the local time is unknown.
pub fn hms_after(secs_of_day: Option<i64>, after: u64) -> (r: Option<String>)
    requires
        match secs_of_day {
            Some(s) => after <= i64::MAX && s + after <= i64::MAX,
            None => true,
        },
    ensures
        match secs_of_day {
            Some(s) => r matches Some(t) && t@ == clock_text(s + after),
            None => r is None,
        },
{
    match secs_of_day {
        Some(s) => Some(fmt_hms(s + after as i64)),
        None => None,
    }
}

/// A whole day later the clock shows the same time.
pub proof fn clock_wraps_around(secs: int, days: int)
    ensures
        clock_text(secs + 86_400 * days) == clock_text(secs),
{
    vstd::arithmetic::div_mod::lemma_mod_multiples_vanish(days, secs, 86_400);
}

/// The hour shown is below 24, the minute and the second below 60.
pub proof fn clock_stays_in_range(secs: int)
    ensures
        0 <= (secs % 86_400) / 3600 < 24,
        0 <= ((secs % 86_400) % 3600) / 60 < 60,
        0 <= (secs % 86_400) % 60 < 60,
{
}

/// The clock shows hours, minutes and seconds, each in two digits.
pub proof fn the_clock_shows_the_time(h: int, m: int, s: int)
    requires
        0 <= h < 24,
        0 <= m < 60,
        0 <= s < 60,
    ensures
        clock_text(3_600 * h + 60 * m + s) == two_digits(h as nat) + ":"@ + two_digits(m as nat)
            + ":"@ + two_digits(s as nat),
{
}

} // verus!
