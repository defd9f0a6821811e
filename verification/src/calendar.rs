//! Observation slots and their dates.
//!
//! Full-disk scenes are taken every ten minutes. A slot is the UTC time of a
//! scene, held as seconds since the Unix epoch; the calendar date and the
//! text forms of a slot come from `chrono`.

use vstd::prelude::*;

use chrono::{DateTime, Duration, DurationRound, NaiveDateTime, ParseError, RoundingError};

use crate::decimal;
use crate::text;

verus! {

/// Seconds between two observation slots.
pub const SLOT_SECS: i64 = 600;

/// Minutes between two observation slots.
pub const SLOT_MINUTES: i64 = 10;

/// The first second of the calendar: 1 January of the year -262143.
pub const CALENDAR_START: i64 = -8_334_601_228_800;

/// The last second of the calendar: the end of the year 262142.
pub const CALENDAR_END: i64 = 8_210_266_876_799;

// ---------------------------------------------------------------------------
// The proleptic Gregorian calendar
// ---------------------------------------------------------------------------

/// Whether a year has a 29 February.
pub open spec fn is_leap(year: int) -> bool {
    year % 4 == 0 && (year % 100 != 0 || year % 400 == 0)
}

/// The number of days of a year.
pub open spec fn year_days(year: int) -> int {
    if is_leap(year) {
        366
    } else {
        365
    }
}

/// The number of days of a month.
pub open spec fn month_days(year: int, month: int) -> int {
    if month == 2 {
        if is_leap(year) {
            29
        } else {
            28
        }
    } else if month == 4 || month == 6 || month == 9 || month == 11 {
        30
    } else {
        31
    }
}

/// The number of days of a year before the first of a month.
pub open spec fn days_before_month(year: int, month: int) -> int
    decreases month,
{
    if month <= 1 {
        0
    } else {
        days_before_month(year, month - 1) + month_days(year, month - 1)
    }
}

/// The number of days from 1 January of the year 1 to 1 January of a year.
pub open spec fn days_before_year(year: int) -> int {
    365 * (year - 1) + (year - 1) / 4 - (year - 1) / 100 + (year - 1) / 400
}

/// Whether a month has such a day.
pub open spec fn is_date(year: int, month: int, day: int) -> bool {
    1 <= month <= 12 && 1 <= day <= month_days(year, month)
}

/// The number of days from 1 January 1970 to a date.
pub open spec fn day_number(year: int, month: int, day: int) -> int {
    days_before_year(year) + days_before_month(year, month) + day - 719163
}

/// The date, as (year, month, day), of the day with a number.
pub open spec fn civil_date(number: int) -> (int, int, int) {
    choose|year: int, month: int, day: int|
        is_date(year, month, day) && #[trigger] day_number(year, month, day) == number
}

proof fn lemma_year_step(year: int)
    ensures
        days_before_year(year + 1) == days_before_year(year) + year_days(year),
{
}

proof fn lemma_years_grow(earlier: int, later: int)
    requires
        earlier < later,
    ensures
        days_before_year(earlier) + year_days(earlier) <= days_before_year(later),
    decreases later - earlier,
{
    lemma_year_step(earlier);
    if earlier + 1 < later {
        lemma_years_grow(earlier + 1, later);
    }
}

proof fn lemma_months_grow(year: int, earlier: int, later: int)
    requires
        1 <= earlier < later <= 13,
    ensures
        days_before_month(year, earlier) + month_days(year, earlier) <= days_before_month(
            year,
            later,
        ),
    decreases later - earlier,
{
    if earlier + 1 < later {
        lemma_months_grow(year, earlier, later - 1);
    }
}

proof fn lemma_day_of_year(year: int, month: int, day: int)
    requires
        is_date(year, month, day),
    ensures
        1 <= days_before_month(year, month) + day <= year_days(year),
{
    assert(days_before_month(year, 13) == year_days(year)) by {
        reveal_with_fuel(days_before_month, 14);
    }
    lemma_months_grow(year, month, 13);
    lemma_month_start(year, month);
}

proof fn lemma_month_start(year: int, month: int)
    requires
        1 <= month <= 12,
    ensures
        0 <= days_before_month(year, month),
    decreases month,
{
    if month > 1 {
        lemma_month_start(year, month - 1);
    }
}

/// No two dates have the same number.
pub proof fn dates_have_distinct_numbers(
    year: int,
    month: int,
    day: int,
    other_year: int,
    other_month: int,
    other_day: int,
)
    requires
        is_date(year, month, day),
        is_date(other_year, other_month, other_day),
        day_number(year, month, day) == day_number(other_year, other_month, other_day),
    ensures
        year == other_year && month == other_month && day == other_day,
{
    lemma_day_of_year(year, month, day);
    lemma_day_of_year(other_year, other_month, other_day);
    if year < other_year {
        lemma_years_grow(year, other_year);
    } else if other_year < year {
        lemma_years_grow(other_year, year);
    } else if month < other_month {
        lemma_months_grow(year, month, other_month);
    } else if other_month < month {
        lemma_months_grow(year, other_month, month);
    }
}

proof fn lemma_some_date(number: int)
    ensures
        exists|year: int, month: int, day: int|
            is_date(year, month, day) && #[trigger] day_number(year, month, day) == number,
    decreases (if number >= 0 { number } else { -number }),
{
    if number == 0 {
        assert(day_number(1970, 1, 1) == 0);
        assert(is_date(1970, 1, 1));
    } else if number > 0 {
        lemma_some_date(number - 1);
        let (y, m, d) = choose|year: int, month: int, day: int|
            is_date(year, month, day) && #[trigger] day_number(year, month, day) == number - 1;
        if d < month_days(y, m) {
            assert(is_date(y, m, d + 1));
            assert(day_number(y, m, d + 1) == number);
        } else if m < 12 {
            assert(is_date(y, m + 1, 1));
            assert(day_number(y, m + 1, 1) == number);
        } else {
            lemma_year_step(y);
            assert(days_before_month(y, 13) == year_days(y)) by {
                reveal_with_fuel(days_before_month, 14);
            }
            assert(days_before_month(y, 13) == days_before_month(y, 12) + month_days(y, 12));
            assert(is_date(y + 1, 1, 1));
            assert(day_number(y + 1, 1, 1) == number);
        }
    } else {
        lemma_some_date(number + 1);
        let (y, m, d) = choose|year: int, month: int, day: int|
            is_date(year, month, day) && #[trigger] day_number(year, month, day) == number + 1;
        if d > 1 {
            assert(is_date(y, m, d - 1));
            assert(day_number(y, m, d - 1) == number);
        } else if m > 1 {
            let last = month_days(y, m - 1);
            assert(is_date(y, m - 1, last));
            assert(day_number(y, m - 1, last) == number);
        } else {
            lemma_year_step(y - 1);
            assert(days_before_month(y - 1, 13) == year_days(y - 1)) by {
                reveal_with_fuel(days_before_month, 14);
            }
            assert(days_before_month(y - 1, 13) == days_before_month(y - 1, 12) + month_days(
                y - 1,
                12,
            ));
            assert(is_date(y - 1, 12, 31));
            assert(day_number(y - 1, 12, 31) == number);
        }
    }
}

/// Every day has a date, and the date has the number of the day.
pub proof fn every_day_has_a_date(number: int)
    ensures
        ({
            let (year, month, day) = civil_date(number);
            is_date(year, month, day) && day_number(year, month, day) == number
        }),
{
    lemma_some_date(number);
}

/// A date is the date of its own number.
pub proof fn date_of_its_number(year: int, month: int, day: int)
    requires
        is_date(year, month, day),
    ensures
        civil_date(day_number(year, month, day)) == (year, month, day),
{
    let (y, m, d) = civil_date(day_number(year, month, day));
    every_day_has_a_date(day_number(year, month, day));
    dates_have_distinct_numbers(year, month, day, y, m, d);
}

// ---------------------------------------------------------------------------
// Times of day and text forms
// ---------------------------------------------------------------------------

/// The hour of a second, counted from the Unix epoch.
pub open spec fn hour_of(secs: int) -> int {
    secs % 86400 / 3600
}

/// The minute of a second, counted from the Unix epoch.
pub open spec fn minute_of(secs: int) -> int {
    secs % 3600 / 60
}

/// A year in four digits; years outside 0 to 9999 carry their sign.
pub open spec fn year_text(year: int) -> Seq<char> {
    if 0 <= year <= 9999 {
        decimal::zero_padded(year as nat, 4)
    } else if year > 0 {
        seq!['+'] + decimal::zero_padded(year as nat, 4)
    } else {
        seq!['-'] + decimal::zero_padded((-year) as nat, 4)
    }
}

/// The directives that format strings use here: year, month, day, hour and
/// minute.
pub open spec fn is_directive(c: char) -> bool {
    c == 'Y' || c == 'm' || c == 'd' || c == 'H' || c == 'M'
}

/// What a directive stands for.
pub open spec fn directive_text(c: char, secs: int) -> Seq<char> {
    let (year, month, day) = civil_date(secs / 86400);
    if c == 'Y' {
        year_text(year)
    } else if c == 'm' {
        decimal::zero_padded(month as nat, 2)
    } else if c == 'd' {
        decimal::zero_padded(day as nat, 2)
    } else if c == 'H' {
        decimal::zero_padded(hour_of(secs) as nat, 2)
    } else {
        decimal::zero_padded(minute_of(secs) as nat, 2)
    }
}

/// Whether, from position `i` on, a format string consists of directives
/// behind percent signs and of characters that stand for themselves.
pub open spec fn is_format_from(format: Seq<char>, i: int) -> bool
    decreases format.len() - i,
{
    if i >= format.len() {
        true
    } else if format[i] == '%' {
        i + 1 < format.len() && is_directive(format[i + 1]) && is_format_from(format, i + 2)
    } else {
        is_format_from(format, i + 1)
    }
}

/// Whether a format string consists of directives and of characters that
/// stand for themselves.
pub open spec fn is_format(format: Seq<char>) -> bool {
    is_format_from(format, 0)
}

/// What a format string makes of a time from position `i` on.
pub open spec fn formatted_from(format: Seq<char>, i: int, secs: int) -> Seq<char>
    decreases format.len() - i,
{
    if i >= format.len() {
        seq![]
    } else if format[i] == '%' && i + 1 < format.len() {
        directive_text(format[i + 1], secs) + formatted_from(format, i + 2, secs)
    } else {
        seq![format[i]] + formatted_from(format, i + 1, secs)
    }
}

/// What a format string makes of a time: directives are replaced, all other
/// characters are kept.
pub open spec fn formatted(format: Seq<char>, secs: int) -> Seq<char> {
    formatted_from(format, 0, secs)
}

/// Whether the calendar has a second.
pub open spec fn in_calendar(secs: int) -> bool {
    CALENDAR_START <= secs <= CALENDAR_END
}

/// Whether a second is the time of an observation slot.
pub open spec fn is_slot(secs: int) -> bool {
    in_calendar(secs) && secs % 600 == 0
}

// ---------------------------------------------------------------------------
// Calls into chrono
// ---------------------------------------------------------------------------

/// The error of reading a time.
#[verifier::external_type_specification]
#[verifier::external_body]
pub struct ExParseError(ParseError);

/// The error of truncating a time.
#[verifier::external_type_specification]
#[verifier::external_body]
pub struct ExRoundingError(RoundingError);

/// The timestamp that `chrono` reads from a text with a format string, or
/// None where the text does not match.
pub uninterp spec fn read_timestamp(text: Seq<char>, format: Seq<char>) -> Option<i64>;

/// Whether a result is the whole minute that a text was made of with a format
/// string, if it was made so.
pub open spec fn reads_back(
    text: Seq<char>,
    format: Seq<char>,
    secs: Result<i64, ParseError>,
) -> bool {
    forall|t: int|
        in_calendar(t) && t % 60 == 0 && text == #[trigger] formatted(format, t) ==> secs
            == Ok::<i64, ParseError>(t as i64)
}

/// Calls `chrono::NaiveDateTime::parse_from_str` and takes the result as UTC
/// seconds since the epoch.
///
/// The claims are that the result depends on the text and the format string
/// alone, that it lies in the calendar, that it is a whole minute, since the
/// format string has no seconds and missing seconds count as zero, and that a
/// text that the format string makes of a whole minute is read as that
/// minute. What other texts are read is left to `chrono`.
#[verifier::external_body]
fn parse_timestamp(text: &str, format: &str) -> (secs: Result<i64, ParseError>)
    requires
        format@ == "%Y-%m-%dT%H:%M"@,
    ensures
        match secs {
            Ok(s) => read_timestamp(text@, format@) == Some(s) && in_calendar(s as int) && s % 60
                == 0,
            Err(_) => read_timestamp(text@, format@) is None,
        },
        reads_back(text@, format@, secs),
{
    NaiveDateTime::parse_from_str(text, format).map(|time| time.and_utc().timestamp())
}

/// Calls `chrono::DateTime::format` for a UTC time given in seconds since the
/// epoch.
///
/// The claim is that directives are replaced by the fields of the time in the
/// proleptic Gregorian calendar, padded with zeros to two digits (four for
/// the year, with a sign outside 0 to 9999), and that all other characters
/// are kept.
#[verifier::external_body]
fn format_timestamp(secs: i64, format: &str) -> (text: String)
    requires
        in_calendar(secs as int),
        is_format(format@),
    ensures
        text@ == formatted(format@, secs as int),
{
    DateTime::from_timestamp(secs, 0).unwrap().format(format).to_string()
}

/// Calls `chrono::DurationRound::duration_trunc` with a duration in minutes,
/// for a UTC time given in seconds and nanoseconds since the epoch.
///
/// The claim is that the time is lowered to the next multiple of the
/// duration, and that this fails exactly where the time in nanoseconds does
/// not fit 64 bits.
#[verifier::external_body]
fn truncate_timestamp(secs: i64, nanos: u32, minutes: i64) -> (truncated: Result<
    i64,
    RoundingError,
>)
    requires
        in_calendar(secs as int),
        nanos < 1_000_000_000,
        0 < minutes <= 1440,
    ensures
        truncated is Ok <==> i64::MIN <= secs * 1_000_000_000 + nanos <= i64::MAX,
        truncated matches Ok(t) ==> t == secs - secs as int % (60 * minutes),
{
    let time = DateTime::from_timestamp(secs, nanos).unwrap();
    time.duration_trunc(Duration::minutes(minutes)).map(|t| t.timestamp())
}

// ---------------------------------------------------------------------------
// Slots
// ---------------------------------------------------------------------------

proof fn lemma_slot_minutes(secs: int)
    requires
        secs % 60 == 0,
    ensures
        secs % 600 == 0 <==> minute_of(secs) % 10 == 0,
{
    let k = secs / 60;
    assert(secs == 60 * k);
    let (hours, minutes) = (k / 60, k % 60);
    let (tens, ones) = (minutes / 10, minutes % 10);
    assert(secs % 3600 == 60 * minutes) by {
        vstd::arithmetic::div_mod::lemma_fundamental_div_mod_converse(
            secs,
            3600,
            hours,
            60 * minutes,
        );
    }
    assert(minute_of(secs) == minutes);
    assert(secs % 600 == 60 * ones) by {
        vstd::arithmetic::div_mod::lemma_fundamental_div_mod_converse(
            secs,
            600,
            6 * hours + tens,
            60 * ones,
        );
    }
}

/// Why a text is not the time of a slot.
#[derive(Debug)]
pub enum TimeError {
    /// The text is not of the form `YYYY-MM-DDTHH:MM`.
    Unreadable(ParseError),
    /// The minutes are not a multiple of ten.
    BetweenSlots,
}

impl TimeError {
    /// The error in words, for the text that was given.
    pub open spec fn words(self, text: Seq<char>) -> Seq<char> {
        match self {
            TimeError::Unreadable(_) => "invalid --time "@ + text::quoted(text)
                + ", expected YYYY-MM-DDTHH:MM"@,
            TimeError::BetweenSlots =>
                "--time minutes must be a multiple of 10 (full-disk scenes are 10-minutely)"@,
        }
    }

    /// The error in words, for the text that was given.
    pub fn message(&self, text: &str) -> (words: String)
        ensures
            words@ == self.words(text@),
    {
        match self {
            TimeError::Unreadable(_) => {
                let mut words = "invalid --time ".to_owned();
                words.append(text::quote(text).as_str());
                words.append(", expected YYYY-MM-DDTHH:MM");
                words
            },
            TimeError::BetweenSlots => {
                "--time minutes must be a multiple of 10 (full-disk scenes are 10-minutely)".to_owned()
            },
        }
    }
}

/// An observation slot.
#[derive(Debug, Clone, Copy, PartialEq, Eq, Structural)]
pub struct Slot {
    secs: i64,
}

impl View for Slot {
    type V = int;

    closed spec fn view(&self) -> int {
        self.secs as int
    }
}

impl Slot {
    #[verifier::type_invariant]
    closed spec fn well_formed(self) -> bool {
        is_slot(self.secs as int)
    }

    /// The slot at a number of seconds since the Unix epoch.
    pub fn at(secs: i64) -> (slot: Option<Slot>)
        ensures
            slot is Some <==> is_slot(secs as int),
            slot matches Some(s) ==> s@ == secs,
    {
        if CALENDAR_START <= secs && secs <= CALENDAR_END && (secs - CALENDAR_START) % SLOT_SECS
            == 0 {
            Some(Slot { secs })
        } else {
            None
        }
    }

    /// The seconds from the Unix epoch to the slot.
    pub fn secs(self) -> (secs: i64)
        ensures
            secs == self@,
            is_slot(secs as int),
    {
        proof {
            use_type_invariant(self);
        }
        self.secs
    }

    /// The slot ten minutes before this one.
    pub fn earlier(self) -> (slot: Slot)
        requires
            CALENDAR_START + SLOT_SECS <= self@,
        ensures
            slot@ == self@ - SLOT_SECS,
    {
        proof {
            use_type_invariant(self);
        }
        Slot { secs: self.secs - SLOT_SECS }
    }

    /// The slot ten minutes after this one.
    pub fn later(self) -> (slot: Slot)
        requires
            self@ + SLOT_SECS <= CALENDAR_END,
        ensures
            slot@ == self@ + SLOT_SECS,
    {
        proof {
            use_type_invariant(self);
        }
        Slot { secs: self.secs + SLOT_SECS }
    }

    /// Writes the slot's time with a format string.
    pub fn format(self, format: &str) -> (text: String)
        requires
            is_format(format@),
        ensures
            text@ == formatted(format@, self@),
    {
        format_timestamp(self.secs(), format)
    }

    /// The slot that the given time falls into. Fails with `chrono`'s error
    /// where the time in nanoseconds does not fit 64 bits.
    pub fn containing(secs: i64, nanos: u32) -> (slot: Result<Slot, RoundingError>)
        requires
            in_calendar(secs as int),
            nanos < 1_000_000_000,
        ensures
            slot is Ok <==> i64::MIN <= secs * 1_000_000_000 + nanos <= i64::MAX,
            slot matches Ok(s) ==> s@ == secs - secs as int % 600,
    {
        match truncate_timestamp(secs, nanos, SLOT_MINUTES) {
            Ok(secs) => Ok(Slot { secs }),
            Err(e) => Err(e),
        }
    }
}

/// A time in the form that is read as a slot, `YYYY-MM-DDTHH:MM`.
pub open spec fn time_text(secs: int) -> Seq<char> {
    formatted("%Y-%m-%dT%H:%M"@, secs)
}

/// Reads a slot from a UTC time of the form `YYYY-MM-DDTHH:MM`.
pub fn parse_time(text: &str) -> (slot: Result<Slot, TimeError>)
    ensures
        forall|t: int|
            is_slot(t) && text@ == #[trigger] time_text(t) ==> slot is Ok && slot->Ok_0@ == t,
        match (read_timestamp(text@, "%Y-%m-%dT%H:%M"@), slot) {
            (None, Err(e)) => e is Unreadable,
            (Some(secs), Ok(s)) => minute_of(secs as int) % 10 == 0 && s@ == secs,
            (Some(secs), Err(e)) => minute_of(secs as int) % 10 != 0 && e is BetweenSlots,
            (None, Ok(_)) => false,
        },
{
    match parse_timestamp(text, "%Y-%m-%dT%H:%M") {
        Ok(secs) => {
            proof {
                lemma_slot_minutes(secs as int);
            }
            match Slot::at(secs) {
                Some(slot) => Ok(slot),
                None => Err(TimeError::BetweenSlots),
            }
        },
        Err(e) => Err(TimeError::Unreadable(e)),
    }
}

} // verus!
