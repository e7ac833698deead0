//! Timestamps: from text such as `2024-01-01T00:00:01.500Z` to whole
//! milliseconds since the Unix epoch.
//!
//! The date/time separator `T` becomes a space and every zone marker `Z` is
//! dropped; what is left is read as a calendar date and a time of day, which
//! may be followed by a dot and exactly three digits of milliseconds. No zone
//! arithmetic is done. Text that cannot be read counts as the epoch itself,
//! time 0.

use vstd::prelude::*;
use vstd::string::{StrSliceExecFns, StringExecFns};

verus! {

/// The width of the interval that a pulse event stands for.
pub const PULSE_WIDTH_MS: i64 = 1;

/// The width of the interval that an arrow event, or an event of an unknown
/// kind, stands for.
pub const ARROW_WIDTH_MS: i64 = 200;

/// The latest time an event can carry: an interval that starts there can still
/// hold its full width.
pub const LATEST_TIME_MS: i64 = i64::MAX - ARROW_WIDTH_MS;

/// The layout in which the calendar reader takes a timestamp.
pub open spec fn timestamp_layout() -> Seq<char> {
    "%Y-%m-%d %H:%M:%S%.3f"@
}

/// The text of a timestamp as the calendar reader takes it: each `T` replaced
/// by a space, each `Z` left out, everything else kept.
pub open spec fn plain_text(ts: Seq<char>) -> Seq<char>
    decreases ts.len(),
{
    if ts.len() == 0 {
        Seq::empty()
    } else if ts.last() == 'Z' {
        plain_text(ts.drop_last())
    } else if ts.last() == 'T' {
        plain_text(ts.drop_last()).push(' ')
    } else {
        plain_text(ts.drop_last()).push(ts.last())
    }
}

/// What `chrono::NaiveDateTime::parse_from_str` makes of `text` under
/// `layout`: the milliseconds from the Unix epoch to the date and time it
/// read, or `None` where it reports an error.
pub uninterp spec fn calendar_millis(text: Seq<char>, layout: Seq<char>) -> Option<i64>;

/// The time that a reading stands for: the reading itself where there is one
/// and an event can carry it, the epoch otherwise.
pub open spec fn time_of_reading(reading: Option<i64>) -> i64 {
    match reading {
        Some(ms) => if ms <= LATEST_TIME_MS { ms } else { 0 },
        None => 0,
    }
}

/// The time that the timestamp `ts` stands for.
pub open spec fn timestamp_millis(ts: Seq<char>) -> i64 {
    time_of_reading(calendar_millis(plain_text(ts), timestamp_layout()))
}

/// Calls `chrono::NaiveDateTime::parse_from_str` on `text` and `layout`. On
/// success the date and time are handed back as the whole milliseconds that
/// `signed_duration_since` the Unix epoch counts; on an error, `None`. The
/// contract only gives this result its name: the reader works on its two
/// arguments alone.
#[verifier::external_body]
fn read_calendar(text: &str, layout: &str) -> (reading: Option<i64>)
    ensures
        reading == calendar_millis(text@, layout@),
{
    match chrono::NaiveDateTime::parse_from_str(text, layout) {
        Ok(t) => Some(
            t.signed_duration_since(chrono::DateTime::UNIX_EPOCH.naive_utc()).num_milliseconds(),
        ),
        Err(_) => None,
    }
}

/// Rewrites a timestamp for the calendar reader.
pub fn to_plain_text(ts: &str) -> (out: String)
    ensures
        out@ == plain_text(ts@),
{
    let n: usize = ts.unicode_len();
    let mut out = String::new();
    let mut i: usize = 0;
    proof {
        assert(ts@.take(0) =~= Seq::<char>::empty());
    }
    while i < n
        invariant
            n == ts@.len(),
            0 <= i <= n,
            out@ == plain_text(ts@.take(i as int)),
        decreases n - i,
    {
        let c: char = ts.get_char(i);
        proof {
            assert(ts@.take(i + 1).drop_last() =~= ts@.take(i as int));
            assert(ts@.take(i + 1).last() == c);
        }
        if c == 'Z' {
        } else if c == 'T' {
            proof {
                reveal_strlit(" ");
            }
            let ghost before = out@;
            out.append(" ");
            assert(out@ =~= before.push(' '));
        } else {
            let ghost before = out@;
            out.append(ts.substring_char(i, i + 1));
            assert(out@ =~= before.push(c));
        }
        i = i + 1;
    }
    proof {
        assert(ts@.take(n as int) =~= ts@);
    }
    out
}

/// Turns a reading of the calendar into a time: a missing reading, or one
/// later than an event can carry, gives the epoch.
pub fn reading_to_time(reading: Option<i64>) -> (ms: i64)
    ensures
        ms == time_of_reading(reading),
        ms <= LATEST_TIME_MS,
{
    match reading {
        Some(ms) => if ms <= LATEST_TIME_MS { ms } else { 0 },
        None => 0,
    }
}

/// The time, in milliseconds since the Unix epoch, that a timestamp stands
/// for. Text that is no timestamp gives 0.
pub fn parse_timestamp_to_millis(ts: &str) -> (ms: i64)
    ensures
        ms == timestamp_millis(ts@),
        ms <= LATEST_TIME_MS,
{
    let plain = to_plain_text(ts);
    let reading = read_calendar(plain.as_str(), "%Y-%m-%d %H:%M:%S%.3f");
    reading_to_time(reading)
}

} // verus!

verus! {

/// Times within this many milliseconds of the epoch, on either side, have a
/// time of day that can be written out. The calendar reaches from the year
/// 262144 before our era to the year 262142 of it, a little further than this.
pub const CLOCK_RANGE_MS: i64 = 8_000_000_000_000_000;

/// The layout in which a time of day is written out.
pub open spec fn clock_layout() -> Seq<char> {
    "%H:%M:%S%.3f"@
}

/// The decimal digit `d` as a character.
pub open spec fn digit(d: int) -> char {
    ('0' as int + d) as char
}

/// A number below 100 in two digits.
pub open spec fn two_digits(n: int) -> Seq<char> {
    seq![digit(n / 10), digit(n % 10)]
}

/// A number below 1000 in three digits.
pub open spec fn three_digits(n: int) -> Seq<char> {
    seq![digit(n / 100), digit(n / 10 % 10), digit(n % 10)]
}

/// The time of day at `ms` milliseconds from the epoch, as hours, minutes,
/// seconds and milliseconds: `HH:MM:SS.mmm`.
pub open spec fn clock_text(ms: int) -> Seq<char> {
    let t = ms % 86_400_000;
    two_digits(t / 3_600_000) + seq![':'] + two_digits(t / 60_000 % 60) + seq![':'] + two_digits(
        t / 1000 % 60,
    ) + seq!['.'] + three_digits(t % 1000)
}

/// Adds `ms` milliseconds to `chrono::DateTime::UNIX_EPOCH` with
/// `checked_add_signed` and writes the result out with
/// `chrono::NaiveDateTime::format` in the layout `%H:%M:%S%.3f`. The contract
/// claims that what comes out is the time of day in two-digit hours, minutes
/// and seconds and three-digit milliseconds, and that something comes out for
/// every time in the clock range; outside the calendar nothing comes out.
#[verifier::external_body]
fn format_clock(ms: i64, layout: &str) -> (out: Option<String>)
    requires
        layout@ == clock_layout(),
    ensures
        out matches Some(t) ==> t@ == clock_text(ms as int),
        -CLOCK_RANGE_MS <= ms <= CLOCK_RANGE_MS ==> out is Some,
{
    let span = chrono::TimeDelta::try_milliseconds(ms)?;
    let t = chrono::DateTime::UNIX_EPOCH.checked_add_signed(span)?;
    Some(t.naive_utc().format(layout).to_string())
}

/// The label of a mark on the time axis: the time of day at `ms`
/// milliseconds from the epoch. A time beyond the calendar has no label.
pub fn axis_time_label(ms: i64) -> (label: Option<String>)
    ensures
        label matches Some(t) ==> t@ == clock_text(ms as int),
        -CLOCK_RANGE_MS <= ms <= CLOCK_RANGE_MS ==> label is Some,
{
    format_clock(ms, "%H:%M:%S%.3f")
}

} // verus!
