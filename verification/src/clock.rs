//! The time of day with which checkpoints are stamped.

use vstd::prelude::*;

use crate::text;

verus! {

/// Hour, minute and second, two digits each.
pub const TIME_OF_DAY: &'static str = "%H:%M:%S";

/// `n` in two digits.
pub open spec fn two_digits(n: nat) -> Seq<char> {
    seq![text::digit(n / 10), text::digit(n % 10)]
}

/// A time of day, `HH:MM:SS`.
pub open spec fn time_text(hour: nat, minute: nat, second: nat) -> Seq<char> {
    two_digits(hour) + ":"@ + two_digits(minute) + ":"@ + two_digits(second)
}

/// Whether `t` is a time of day, `HH:MM:SS`.
pub open spec fn is_time_of_day(t: Seq<char>) -> bool {
    exists|hour: nat, minute: nat, second: nat|
        hour < 24 && minute < 60 && second < 60 && t == #[trigger] time_text(hour, minute, second)
}

/// Whether `t` is a stamp: a time of day, or none.
pub open spec fn is_stamp(t: Option<Seq<char>>) -> bool {
    match t {
        Some(t) => is_time_of_day(t),
        None => true,
    }
}

/// `jiff::Zoned::try_from` on the system time, and `jiff::Zoned::strftime` on what it
/// gives: the local time of day, where the system clock is in the range that jiff can
/// represent. With this format it is a 24-hour clock with two digits each for hour,
/// minute and second. Which time it is, and whether the clock is in that range, is left
/// unsaid: it rests on the clock and the time zone of the machine.
#[verifier::external_body]
fn local_time(format: &str) -> (t: Option<String>)
    requires
        format@ == TIME_OF_DAY@,
    ensures
        t matches Some(t) ==> is_time_of_day(t@),
{
    match jiff::Zoned::try_from(std::time::SystemTime::now()) {
        Ok(now) => Some(now.strftime(format).to_string()),
        Err(_) => None,
    }
}

/// The current local time of day, `HH:MM:SS` (a debugging session is short-lived, so
/// the date is omitted); none where the system clock is out of range.
pub fn now_hms() -> (t: Option<String>)
    ensures
        is_stamp(crate::state::text_of(t)),
{
    local_time(TIME_OF_DAY)
}

} // verus!
