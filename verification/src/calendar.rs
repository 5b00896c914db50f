//! The calendar: what only the date and time library can tell.
//!
//! Instants cross this boundary as whole seconds since the Unix epoch. The
//! time zone is the one of the machine, so nothing is promised of a result
//! that depends on it.

use crate::tasks::is_digit;
use vstd::prelude::*;

verus! {

/// `jiff::Error`: why the calendar could not do what was asked of it.
#[verifier::external_type_specification]
#[verifier::external_body]
pub struct ExCalendarError(jiff::Error);

/// `jiff::civil::DateTime`: a date with a time of day, in no time zone.
#[verifier::external_type_specification]
#[verifier::external_body]
pub struct ExCivilDateTime(jiff::civil::DateTime);

/// `jiff::civil::Date`: a date, in no time zone.
#[verifier::external_type_specification]
#[verifier::external_body]
pub struct ExCivilDate(jiff::civil::Date);

/// The date of `instant` in universal time as `jiff::Timestamp::strftime`
/// writes it for the format `%F`, where the instant is one that the calendar
/// can hold.
pub uninterp spec fn utc_date(instant: int) -> Option<Seq<char>>;

/// The whole seconds of the span that `text` spells, as `jiff::Span` reads
/// it, where it spells a span of hours and smaller units.
pub uninterp spec fn span_seconds(text: Seq<char>) -> Option<int>;

/// The first instant that the calendar can hold: the least that
/// `jiff::Timestamp::from_second` takes.
pub const MIN_INSTANT: i64 = -377705023201;

/// The last instant that the calendar can hold: the greatest that
/// `jiff::Timestamp::from_second` takes.
pub const MAX_INSTANT: i64 = 253402207200;

/// The calendar can hold `instant`.
pub open spec fn in_calendar(instant: int) -> bool {
    MIN_INSTANT <= instant <= MAX_INSTANT
}

/// Whether `text` is read as a date: whether `jiff::civil::Date`'s `FromStr`
/// takes it.
pub uninterp spec fn date_is_read(text: Seq<char>) -> bool;

/// Whether `text` is read as a date with hours and minutes: whether
/// `jiff::civil::DateTime::strptime` takes it for the format `%F %R`.
pub uninterp spec fn civil_is_read(text: Seq<char>) -> bool;

/// `text` is hours and minutes as a clock shows them: two digits, a colon,
/// two digits.
pub open spec fn is_clock(text: Seq<char>) -> bool {
    &&& text.len() == 5
    &&& is_digit(text[0])
    &&& is_digit(text[1])
    &&& text[2] == ':'
    &&& is_digit(text[3])
    &&& is_digit(text[4])
}

/// `text` is a date with year, month and day: four digits, which a minus
/// sign may precede, then twice a dash and two digits.
pub open spec fn is_date(text: Seq<char>) -> bool {
    let from = text.len() - 10;
    &&& (from == 0 || (from == 1 && text[0] == '-'))
    &&& is_digit(text[from])
    &&& is_digit(text[from + 1])
    &&& is_digit(text[from + 2])
    &&& is_digit(text[from + 3])
    &&& text[from + 4] == '-'
    &&& is_digit(text[from + 5])
    &&& is_digit(text[from + 6])
    &&& text[from + 7] == '-'
    &&& is_digit(text[from + 8])
    &&& is_digit(text[from + 9])
}

/// Calls `jiff::Timestamp::strftime` with the format `%F`: the result is
/// the date of the instant in universal time, written as year, month and
/// day. It is an error where the calendar cannot hold the instant.
#[verifier::external_body]
pub(crate) fn utc_date_text(instant: i64) -> (r: Result<String, jiff::Error>)
    ensures
        r is Ok <==> in_calendar(instant as int),
        match r {
            Ok(text) => utc_date(instant as int) == Some(text@) && is_date(text@),
            Err(_) => utc_date(instant as int) is None,
        },
{
    let stamp = jiff::Timestamp::from_second(instant)?;
    Ok(stamp.strftime("%F").to_string())
}

/// Calls `jiff::civil::DateTime::strptime` with the format `%F %R`: a date,
/// a space, and hours and minutes. Whether the text is read depends on the
/// text alone; nothing is claimed of what it is read as.
#[verifier::external_body]
pub(crate) fn parse_civil(text: &str) -> (r: Result<jiff::civil::DateTime, jiff::Error>)
    ensures
        r is Ok <==> civil_is_read(text@),
{
    jiff::civil::DateTime::strptime("%F %R", text)
}

/// Calls `jiff::civil::DateTime::to_zoned` with the machine's time zone and
/// hands back the instant. Which instant that is depends on the time zone;
/// it is always one that the calendar can hold.
#[verifier::external_body]
pub(crate) fn civil_instant(civil: jiff::civil::DateTime) -> (r: Result<i64, jiff::Error>)
    ensures
        r matches Ok(instant) ==> in_calendar(instant as int),
{
    let zoned = civil.to_zoned(jiff::tz::TimeZone::system())?;
    Ok(zoned.timestamp().as_second())
}

/// Calls `jiff::Zoned::round` to cut the instant down to the start of its
/// day in the machine's time zone. It is an error where the calendar cannot
/// hold the instant. Which instant the day starts at depends on the time
/// zone; it is always one that the calendar can hold.
#[verifier::external_body]
pub(crate) fn day_start(instant: i64) -> (r: Result<i64, jiff::Error>)
    ensures
        r is Ok ==> in_calendar(instant as int),
        r matches Ok(start) ==> in_calendar(start as int),
{
    let zoned = jiff::Timestamp::from_second(instant)?.to_zoned(jiff::tz::TimeZone::system());
    let options = jiff::ZonedRound::new().smallest(jiff::Unit::Day).mode(jiff::RoundMode::Trunc);
    Ok(zoned.round(options)?.timestamp().as_second())
}

/// Calls `jiff::Zoned::checked_add` to go one calendar day on from the
/// instant in the machine's time zone. It is an error where the calendar
/// cannot hold the instant. Which instant is a day on depends on the time
/// zone; it is always one that the calendar can hold.
#[verifier::external_body]
pub(crate) fn day_after(instant: i64) -> (r: Result<i64, jiff::Error>)
    ensures
        r is Ok ==> in_calendar(instant as int),
        r matches Ok(next) ==> in_calendar(next as int),
{
    let zoned = jiff::Timestamp::from_second(instant)?.to_zoned(jiff::tz::TimeZone::system());
    Ok(zoned.checked_add(jiff::Span::new().days(1))?.timestamp().as_second())
}

/// Calls `jiff::Zoned::strftime` with the format `%F`: the date of the
/// instant in the machine's time zone. Which date that is depends on the
/// time zone; it is always written as year, month and day. It is an error
/// where the calendar cannot hold the instant, and only there.
#[verifier::external_body]
pub(crate) fn local_date_text(instant: i64) -> (r: Result<String, jiff::Error>)
    ensures
        r is Ok <==> in_calendar(instant as int),
        r matches Ok(text) ==> is_date(text@),
{
    let zoned = jiff::Timestamp::from_second(instant)?.to_zoned(jiff::tz::TimeZone::system());
    Ok(zoned.strftime("%F").to_string())
}

/// Calls `jiff::Zoned::strftime` with the format `%R`: the hours and
/// minutes of the instant in the machine's time zone. What the clock shows
/// depends on the time zone; it is always written as two digits, a colon
/// and two digits. It is an error where the calendar cannot hold the
/// instant, and only there.
#[verifier::external_body]
pub(crate) fn local_clock_text(instant: i64) -> (r: Result<String, jiff::Error>)
    ensures
        r is Ok <==> in_calendar(instant as int),
        r matches Ok(text) ==> is_clock(text@),
{
    let zoned = jiff::Timestamp::from_second(instant)?.to_zoned(jiff::tz::TimeZone::system());
    Ok(zoned.strftime("%R").to_string())
}

/// Reads a span with `jiff::Span`'s `FromStr` and hands back its whole
/// seconds. It is an error where the text spells no span, or one with days
/// or larger units, whose length depends on the date.
#[verifier::external_body]
pub(crate) fn parse_span(text: &str) -> (r: Result<i64, jiff::Error>)
    ensures
        match r {
            Ok(seconds) => span_seconds(text@) == Some(seconds as int),
            Err(_) => span_seconds(text@) is None,
        },
{
    let span: jiff::Span = text.parse()?;
    Ok(jiff::SignedDuration::try_from(span)?.as_secs())
}

/// Reads a date with `jiff::civil::Date`'s `FromStr`. Whether the text is
/// read depends on the text alone; nothing is claimed of what it is read as.
#[verifier::external_body]
pub(crate) fn parse_date(text: &str) -> (r: Result<jiff::civil::Date, jiff::Error>)
    ensures
        r is Ok <==> date_is_read(text@),
{
    text.parse()
}

/// Calls `jiff::civil::Date::to_zoned` with the machine's time zone and
/// hands back the instant at which the date begins there. Which instant
/// that is depends on the time zone; it is always one that the calendar can
/// hold.
#[verifier::external_body]
pub(crate) fn date_instant(date: jiff::civil::Date) -> (r: Result<i64, jiff::Error>)
    ensures
        r matches Ok(instant) ==> in_calendar(instant as int),
{
    let zoned = date.to_zoned(jiff::tz::TimeZone::system())?;
    Ok(zoned.timestamp().as_second())
}

} // verus!
