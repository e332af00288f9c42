//! Shifting a recurring series by whole days: the rule that dragging a whole
//! series onto another day writes.
//!
//! Moving a series by N days has to move every occurrence by N days. For the
//! rule that means: a weekday list moves round the week (a Monday rule becomes
//! a Tuesday rule), a day of the month moves within the month, and `UNTIL`
//! moves with the series. Days are counted on the series' own clock, its zone,
//! or UTC for a series without one. The start and the exceptions are instants
//! and move elsewhere, where the zone is known; so does a UTC `UNTIL`, which is
//! handed in already moved.
//!
//! Some rules cannot move every occurrence by the same number of days without
//! changing what they mean. Those are refused rather than bent.

use vstd::prelude::*;

use crate::civil::{
    add_days, compact_date, compact_text, days_in_month, is_utc_stamp, month_length, moved_day,
    parse_date, read_date, reads_as_utc_stamp, stamp_is_a_time, write_compact, Date, Ymd,
    FIRST_YEAR, LAST_YEAR,
};
use crate::rrule_parts::{
    ascii_text, freq_in, has_key, interval_in, is_ascii_text, is_utc_date_time, parse_freq,
    parse_interval, parse_parts, part, part_texts, rule_parts, utc_date_time, value_of,
    weekday_letters, weekday_named, weekday_of, weekday_token, Freq, Part, PartText,
};
use crate::text::{
    all_digits, ascii_upper, chars_of, digit_char, is_digit, join, joined, lemma_texts_push,
    optional_str, parse_signed, same, signed_decimal, signed_decimal_of, signed_in, split, split_on,
    string_of, texts, trim, trimmed, upper, uppercase, Blank,
};
use crate::types::{weekday_at, weekday_from_monday, Weekday};

verus! {

/// Why a rule cannot move by whole days.
#[derive(Debug, Clone, Copy, PartialEq, Eq, Structural)]
pub enum ShiftRefusal {
    /// The rule, its `FREQ`, a value in it or the start day cannot be read, or
    /// a part is given twice.
    Unreadable,
    /// `BYDAY` with an ordinal, such as `2SU` or `-1FR`.
    OrdinalWeekday,
    /// `BYSETPOS`.
    SetPosition,
    /// `BYYEARDAY`.
    YearDay,
    /// `BYWEEKNO`.
    WeekNumber,
    /// `BYHOUR`, `BYMINUTE` or `BYSECOND`, when the time of day changes too.
    TimeOfDay,
    /// A negative `BYMONTHDAY`, counted from the end of the month.
    NegativeMonthDay,
    /// A day of the month past the 28th, or a shift out of the month.
    MonthEnd,
    /// The rule recurs only in some months or years, and moved days would
    /// leave them.
    LimitedMonths,
    /// A yearly rule whose shift touches the end of February.
    LeapDay,
    /// A part with no known meaning here.
    UnknownPart,
}

/// What shifting a series by whole days writes.
#[derive(Debug, Clone, PartialEq, Eq)]
pub enum SeriesShift {
    /// The rule to store with the moved series.
    Shifted { rrule: String },
    /// The rule cannot move by whole days.
    Refused { reason: ShiftRefusal },
}

/// A request to shift a series.
#[derive(Debug, Clone, PartialEq, Eq)]
pub struct SeriesShiftQuestion {
    /// The series' rule, with or without the `RRULE:` prefix.
    pub rrule: String,
    /// The day the series starts, `YYYY-MM-DD`, on the series' own clock.
    pub start: String,
    /// Whole days to move it by, on that clock; negative moves it earlier.
    pub days: i32,
    /// Whether the time of day changes as well.
    pub time_changes: bool,
    /// The moved bound for a rule whose `UNTIL` is a UTC date-time, written
    /// `YYYYMMDDTHHMMSSZ`. Without it a UTC `UNTIL` moves by whole UTC days. A
    /// date or a floating `UNTIL` moves by days, and this is ignored for it.
    pub until: Option<String>,
}

// ---------------------------------------------------------------------------
// Weekdays round the week
// ---------------------------------------------------------------------------

/// The weekday `days` days after another.
pub open spec fn moved_weekday(day: Weekday, days: int) -> Weekday {
    weekday_at((day.place() + days) % 7)
}

/// Weekdays move round the week: by no days or by seven a weekday stays, and
/// two moves add up.
pub proof fn weekdays_move_round_the_week(day: Weekday, a: int, b: int)
    ensures
        moved_weekday(day, 0) == day,
        moved_weekday(day, 7) == day,
        moved_weekday(moved_weekday(day, a), b) == moved_weekday(day, a + b),
{
    let p = (day.place() + a) % 7;
    assert(weekday_at(p).place() == p);
    assert((p + b) % 7 == (day.place() + a + b) % 7) by {
        assert(p == (day.place() + a) - 7 * ((day.place() + a) / 7));
        let q = (day.place() + a) / 7;
        assert((day.place() + a + b - 7 * q) % 7 == (day.place() + a + b) % 7);
    }
}

/// A day and the weekday it falls on move together.
pub proof fn a_day_and_its_weekday_move_together(from: Ymd, to: Ymd, days: int)
    requires
        to.number() == from.number() + days,
    ensures
        weekday_at(to.weekday()) == moved_weekday(weekday_at(from.weekday()), days),
{
    let p = (from.number() - 1) % 7;
    assert(weekday_at(p).place() == p);
    assert((p + days) % 7 == (from.number() + days - 1) % 7) by {
        let q = (from.number() - 1) / 7;
        assert((from.number() - 1 + days - 7 * q) % 7 == (from.number() - 1 + days) % 7);
    }
}

fn shift_weekday(day: Weekday, days: i32) -> (r: Weekday)
    ensures
        r == moved_weekday(day, days as int),
{
    let place: i64 = crate::civil::euclid(day.days_from_monday() as i64 + days as i64, 7);
    weekday_from_monday(place as u32)
}

// ---------------------------------------------------------------------------
// What becomes of each part
// ---------------------------------------------------------------------------

/// A part that this shift cannot take along.
pub open spec fn part_refusal(key: Seq<char>) -> Option<ShiftRefusal> {
    if key == "FREQ"@ || key == "INTERVAL"@ || key == "COUNT"@ || key == "UNTIL"@ || key
        == "BYDAY"@ || key == "BYMONTHDAY"@ || key == "BYMONTH"@ || key == "WKST"@ || key
        == "BYHOUR"@ || key == "BYMINUTE"@ || key == "BYSECOND"@ {
        None
    } else if key == "BYSETPOS"@ {
        Some(ShiftRefusal::SetPosition)
    } else if key == "BYYEARDAY"@ {
        Some(ShiftRefusal::YearDay)
    } else if key == "BYWEEKNO"@ {
        Some(ShiftRefusal::WeekNumber)
    } else {
        Some(ShiftRefusal::UnknownPart)
    }
}

/// The refusal of the first part that cannot be taken along.
pub open spec fn parts_refusal(parts: Seq<PartText>) -> Option<ShiftRefusal>
    decreases parts.len(),
{
    if parts.len() == 0 {
        None
    } else {
        match parts_refusal(parts.drop_last()) {
            Some(reason) => Some(reason),
            None => part_refusal(parts.last().key),
        }
    }
}

/// One weekday token moved. An ordinal before the weekday is refused.
pub open spec fn moved_token(token: Seq<char>, days: int) -> Result<Seq<char>, ShiftRefusal> {
    let t = uppercase(trimmed(token, Blank::Unicode));
    match weekday_named(t) {
        Some(day) => Ok(weekday_letters(moved_weekday(day, days))),
        None => if t.len() > 2 && is_ascii_text(t) && weekday_named(t.skip(t.len() - 2)) is Some {
            Err(ShiftRefusal::OrdinalWeekday)
        } else {
            Err(ShiftRefusal::Unreadable)
        },
    }
}

/// The weekday tokens moved, or the refusal of the first that cannot be.
pub open spec fn moved_tokens(tokens: Seq<Seq<char>>, days: int) -> Result<
    Seq<Seq<char>>,
    ShiftRefusal,
>
    decreases tokens.len(),
{
    if tokens.len() == 0 {
        Ok(Seq::empty())
    } else {
        match moved_tokens(tokens.drop_last(), days) {
            Err(reason) => Err(reason),
            Ok(before) => match moved_token(tokens.last(), days) {
                Err(reason) => Err(reason),
                Ok(t) => Ok(before.push(t)),
            },
        }
    }
}

/// One day of the month moved. It stays among the days every month has.
pub open spec fn moved_month_day(token: Seq<char>, days: int) -> Result<Seq<char>, ShiftRefusal> {
    match signed_in(trimmed(token, Blank::Unicode)) {
        None => Err(ShiftRefusal::Unreadable),
        Some(day) => if day < i32::MIN || day > i32::MAX || day == 0 {
            Err(ShiftRefusal::Unreadable)
        } else if day < 0 {
            Err(ShiftRefusal::NegativeMonthDay)
        } else if !(1 <= day <= 28 && 1 <= day + days <= 28) {
            Err(ShiftRefusal::MonthEnd)
        } else {
            Ok(signed_decimal(day + days))
        },
    }
}

/// The days of the month moved, or the refusal of the first that cannot be.
pub open spec fn moved_month_days(tokens: Seq<Seq<char>>, days: int) -> Result<
    Seq<Seq<char>>,
    ShiftRefusal,
>
    decreases tokens.len(),
{
    if tokens.len() == 0 {
        Ok(Seq::empty())
    } else {
        match moved_month_days(tokens.drop_last(), days) {
            Err(reason) => Err(reason),
            Ok(before) => match moved_month_day(tokens.last(), days) {
                Err(reason) => Err(reason),
                Ok(t) => Ok(before.push(t)),
            },
        }
    }
}

/// `a` and `b` fall in different months (a monthly rule) or years (a yearly
/// one).
pub open spec fn leaves_its_period(freq: Freq, a: Ymd, b: Ymd) -> bool {
    match freq {
        Freq::Monthly => a.year != b.year || a.month != b.month,
        Freq::Yearly => a.year != b.year,
        _ => false,
    }
}

/// The last day of February in a year.
pub open spec fn end_of_february(year: int) -> Ymd {
    Ymd { year, month: 2, day: days_in_month(year, 2) }
}

pub open spec fn is_leap_day(d: Ymd) -> bool {
    d.month == 2 && d.day == 29
}

/// The end of a February lies on or after `early` and before `late`.
pub open spec fn crosses_february(early: Ymd, late: Ymd) -> bool {
    exists|year: int|
        early.year <= year <= late.year && !(#[trigger] end_of_february(year)).before(early)
            && end_of_february(year).before(late)
}

/// Moving a yearly date from `a` to `b` touches February 29 or crosses from
/// February into March: then leap and common years disagree on the gap.
pub open spec fn meets_end_of_february(a: Ymd, b: Ymd) -> bool {
    is_leap_day(a) || is_leap_day(b) || if b.before(a) {
        crosses_february(b, a)
    } else {
        crosses_february(a, b)
    }
}

/// The moved UTC bound that was handed in, checked to be one.
pub open spec fn checked_bound(moved: Seq<char>) -> Result<Seq<char>, ShiftRefusal> {
    let m = uppercase(trimmed(moved, Blank::Unicode));
    if utc_date_time(m) && stamp_is_a_time(m) {
        Ok(m)
    } else {
        Err(ShiftRefusal::Unreadable)
    }
}

/// What follows the date in an `UNTIL`: nothing, or a time of day with or
/// without a `Z`.
pub open spec fn until_rest_is_readable(rest: Seq<char>) -> bool {
    ||| rest.len() == 0
    ||| {
        &&& rest.len() >= 7
        &&& rest[0] == 'T'
        &&& forall|i: int| 1 <= i < 7 ==> is_digit(#[trigger] rest[i])
        &&& rest.len() == 7 || (rest.len() == 8 && rest[7] == 'Z')
    }
}

/// The day the date of an `UNTIL` names.
pub open spec fn until_date(text: Seq<char>) -> Option<Ymd> {
    if text.len() == 8 && all_digits(text) {
        compact_date(text)
    } else {
        read_date(text, "%Y%m%d"@)
    }
}

/// `UNTIL` moved by whole days: its date changes, its time and `Z` stay.
pub open spec fn moved_until(value: Seq<char>, days: int) -> Result<Seq<char>, ShiftRefusal> {
    if !is_ascii_text(value) || value.len() < 8 || !until_rest_is_readable(value.skip(8)) {
        Err(ShiftRefusal::Unreadable)
    } else {
        match until_date(value.take(8)) {
            None => Err(ShiftRefusal::Unreadable),
            Some(date) => match moved_day(date, days) {
                None => Err(ShiftRefusal::Unreadable),
                Some(moved) => Ok(compact_text(moved) + value.skip(8)),
            },
        }
    }
}

/// `UNTIL`, when the rule has one: the bound handed in for a UTC date-time,
/// else the rule's own moved by days.
pub open spec fn new_until(
    parts: Seq<PartText>,
    days: int,
    until: Option<Seq<char>>,
) -> Result<Option<Seq<char>>, ShiftRefusal> {
    match value_of(parts, "UNTIL"@) {
        None => Ok(None),
        Some(value) => {
            let moved = match until {
                Some(bound) => if utc_date_time(value) {
                    checked_bound(bound)
                } else {
                    moved_until(value, days)
                },
                None => moved_until(value, days),
            };
            match moved {
                Ok(m) => Ok(Some(m)),
                Err(reason) => Err(reason),
            }
        },
    }
}

/// `BYDAY`, when the rule has one. Weekdays of some months only cannot move:
/// one at the end of a month in the set would move into a month outside it.
pub open spec fn new_by_day(parts: Seq<PartText>, days: int, some_months: bool) -> Result<
    Option<Seq<char>>,
    ShiftRefusal,
> {
    match value_of(parts, "BYDAY"@) {
        None => Ok(None),
        Some(value) => match moved_tokens(split_on(value, ','), days) {
            Err(reason) => Err(reason),
            Ok(tokens) => if some_months {
                Err(ShiftRefusal::LimitedMonths)
            } else {
                Ok(Some(joined(tokens, ","@)))
            },
        },
    }
}

/// `BYMONTHDAY`, when the rule has one. Every other month (or year) is counted
/// from the one the start is in, so the start has to stay in it.
pub open spec fn new_by_month_day(parts: Seq<PartText>, days: int, start_leaves: bool) -> Result<
    Option<Seq<char>>,
    ShiftRefusal,
> {
    match value_of(parts, "BYMONTHDAY"@) {
        None => Ok(None),
        Some(value) => match moved_month_days(split_on(value, ','), days) {
            Err(reason) => Err(reason),
            Ok(tokens) => if start_leaves {
                Err(ShiftRefusal::LimitedMonths)
            } else {
                Ok(Some(joined(tokens, ","@)))
            },
        },
    }
}

/// Why a rule that takes its day from its start cannot move with it.
pub open spec fn start_refusal(
    parts: Seq<PartText>,
    freq: Freq,
    start: Ymd,
    moved: Ymd,
) -> Option<ShiftRefusal> {
    let by_month = value_of(parts, "BYMONTH"@) is Some;
    if value_of(parts, "BYDAY"@) is Some || value_of(parts, "BYMONTHDAY"@) is Some {
        None
    } else if freq is Monthly || (freq is Yearly && by_month) {
        if start.day > 28 || moved.day > 28 {
            Some(ShiftRefusal::MonthEnd)
        } else if start.year != moved.year || start.month != moved.month {
            if by_month {
                Some(ShiftRefusal::LimitedMonths)
            } else {
                Some(ShiftRefusal::MonthEnd)
            }
        } else {
            None
        }
    } else if freq is Yearly && meets_end_of_february(start, moved) {
        Some(ShiftRefusal::LeapDay)
    } else {
        None
    }
}

/// `WKST` of a rule that recurs every other week: the week's first day moves
/// with the days, because which weeks are "on" is counted from the week the
/// start falls in. A rule on given weekdays gets one where it had none.
pub open spec fn new_week_start(
    parts: Seq<PartText>,
    freq: Freq,
    interval: u32,
    days: int,
) -> Result<Option<Seq<char>>, ShiftRefusal> {
    if freq is Weekly && interval > 1 {
        match value_of(parts, "WKST"@) {
            Some(value) => match weekday_named(uppercase(value)) {
                Some(day) => Ok(Some(weekday_letters(moved_weekday(day, days)))),
                None => Err(ShiftRefusal::Unreadable),
            },
            None => if value_of(parts, "BYDAY"@) is Some {
                Ok(Some(weekday_letters(moved_weekday(Weekday::Monday, days))))
            } else {
                Ok(None)
            },
        }
    } else {
        Ok(None)
    }
}

// ---------------------------------------------------------------------------
// The rule written back
// ---------------------------------------------------------------------------

/// A new value for a part.
pub struct Replacement {
    pub key: String,
    pub value: String,
}

/// What replacements hold.
pub open spec fn replacements(v: Seq<Replacement>) -> Seq<(Seq<char>, Seq<char>)> {
    Seq::new(v.len(), |i: int| (v[i].key@, v[i].value@))
}

/// One replacement, where there is a new value.
pub open spec fn replaced(key: Seq<char>, value: Option<Seq<char>>) -> Seq<
    (Seq<char>, Seq<char>),
> {
    match value {
        Some(v) => seq![(key, v)],
        None => Seq::empty(),
    }
}

/// The new value of `key`.
pub open spec fn new_value(replaced: Seq<(Seq<char>, Seq<char>)>, key: Seq<char>) -> Option<
    Seq<char>,
>
    decreases replaced.len(),
{
    if replaced.len() == 0 {
        None
    } else {
        match new_value(replaced.drop_last(), key) {
            Some(v) => Some(v),
            None => if replaced.last().0 == key {
                Some(replaced.last().1)
            } else {
                None
            },
        }
    }
}

/// A part as it was, or with its new value.
pub open spec fn written_part(part: PartText, replaced: Seq<(Seq<char>, Seq<char>)>) -> Seq<char> {
    match new_value(replaced, part.key) {
        Some(v) => part.key + "="@ + v,
        None => trimmed(part.raw, Blank::Unicode),
    }
}

/// The rule written back: each part in its place, and a week start appended
/// when one was added.
pub open spec fn written_rule(
    prefix: Seq<char>,
    parts: Seq<PartText>,
    replaced: Seq<(Seq<char>, Seq<char>)>,
) -> Seq<char> {
    let kept = Seq::new(parts.len(), |i: int| written_part(parts[i], replaced));
    let added = match new_value(replaced, "WKST"@) {
        Some(v) => if has_key(parts, "WKST"@) {
            Seq::empty()
        } else {
            seq!["WKST="@ + v]
        },
        None => Seq::empty(),
    };
    prefix + joined(kept + added, ";"@)
}

/// The rule of a moved series, or why it cannot move.
pub open spec fn shifted(
    rrule: Seq<char>,
    start: Ymd,
    days: int,
    time_changes: bool,
    until: Option<Seq<char>>,
) -> Result<Seq<char>, ShiftRefusal> {
    let rule = trimmed(rrule, Blank::Unicode);
    match rule_parts(rule) {
        None => Err(ShiftRefusal::Unreadable),
        Some((prefix, parts)) => match value_of(parts, "FREQ"@) {
            None => Err(ShiftRefusal::Unreadable),
            Some(value) => match freq_in(value) {
                None => Err(ShiftRefusal::Unreadable),
                Some(freq) => if time_changes && (value_of(parts, "BYHOUR"@) is Some || value_of(
                    parts,
                    "BYMINUTE"@,
                ) is Some || value_of(parts, "BYSECOND"@) is Some) {
                    Err(ShiftRefusal::TimeOfDay)
                } else if days == 0 {
                    unmoved(rule, prefix, parts, until)
                } else {
                    moved_rule(prefix, parts, freq, start, days, until)
                },
            },
        },
    }
}

/// A rule whose days stay: only a UTC bound can change, with the time of day.
pub open spec fn unmoved(
    rule: Seq<char>,
    prefix: Seq<char>,
    parts: Seq<PartText>,
    until: Option<Seq<char>>,
) -> Result<Seq<char>, ShiftRefusal> {
    match (value_of(parts, "UNTIL"@), until) {
        (Some(value), Some(bound)) => if utc_date_time(value) {
            match checked_bound(bound) {
                Ok(m) => Ok(written_rule(prefix, parts, seq![("UNTIL"@, m)])),
                Err(reason) => Err(reason),
            }
        } else {
            Ok(rule)
        },
        _ => Ok(rule),
    }
}

/// A rule whose days move.
pub open spec fn moved_rule(
    prefix: Seq<char>,
    parts: Seq<PartText>,
    freq: Freq,
    start: Ymd,
    days: int,
    until: Option<Seq<char>>,
) -> Result<Seq<char>, ShiftRefusal> {
    let by_month = value_of(parts, "BYMONTH"@) is Some;
    let by_months = freq is Monthly || freq is Yearly;
    match parts_refusal(parts) {
        Some(reason) => Err(reason),
        None => match interval_in(value_of(parts, "INTERVAL"@)) {
            None => Err(ShiftRefusal::Unreadable),
            Some(interval) => if by_month && !by_months {
                Err(ShiftRefusal::LimitedMonths)
            } else {
                match moved_day(start, days) {
                    None => Err(ShiftRefusal::Unreadable),
                    Some(moved) => match new_by_day(
                        parts,
                        days,
                        by_months && (by_month || interval > 1),
                    ) {
                        Err(reason) => Err(reason),
                        Ok(by_day) => match new_by_month_day(
                            parts,
                            days,
                            interval > 1 && leaves_its_period(freq, start, moved),
                        ) {
                            Err(reason) => Err(reason),
                            Ok(by_month_day) => match start_refusal(parts, freq, start, moved) {
                                Some(reason) => Err(reason),
                                None => match new_week_start(parts, freq, interval, days) {
                                    Err(reason) => Err(reason),
                                    Ok(week_start) => match new_until(parts, days, until) {
                                        Err(reason) => Err(reason),
                                        Ok(bound) => Ok(
                                            written_rule(
                                                prefix,
                                                parts,
                                                replaced("BYDAY"@, by_day) + replaced(
                                                    "BYMONTHDAY"@,
                                                    by_month_day,
                                                ) + replaced("WKST"@, week_start) + replaced(
                                                    "UNTIL"@,
                                                    bound,
                                                ),
                                            ),
                                        ),
                                    },
                                },
                            },
                        },
                    },
                }
            },
        },
    }
}

/// What a [`SeriesShift`] says.
pub open spec fn shift_said(s: SeriesShift) -> Result<Seq<char>, ShiftRefusal> {
    match s {
        SeriesShift::Shifted { rrule } => Ok(rrule@),
        SeriesShift::Refused { reason } => Err(reason),
    }
}

/// What a result with a text says.
pub open spec fn text_result(r: Result<String, ShiftRefusal>) -> Result<Seq<char>, ShiftRefusal> {
    match r {
        Ok(s) => Ok(s@),
        Err(reason) => Err(reason),
    }
}

/// What a result with an optional text says.
pub open spec fn optional_result(r: Result<Option<String>, ShiftRefusal>) -> Result<
    Option<Seq<char>>,
    ShiftRefusal,
> {
    match r {
        Ok(Some(s)) => Ok(Some(s@)),
        Ok(None) => Ok(None),
        Err(reason) => Err(reason),
    }
}

// ---------------------------------------------------------------------------
// Computing it
// ---------------------------------------------------------------------------

fn key_refusal(key: &str) -> (r: Option<ShiftRefusal>)
    ensures
        r == part_refusal(key@),
{
    if same(key, "FREQ") || same(key, "INTERVAL") || same(key, "COUNT") || same(key, "UNTIL")
        || same(key, "BYDAY") || same(key, "BYMONTHDAY") || same(key, "BYMONTH") || same(
        key,
        "WKST",
    ) || same(key, "BYHOUR") || same(key, "BYMINUTE") || same(key, "BYSECOND") {
        None
    } else if same(key, "BYSETPOS") {
        Some(ShiftRefusal::SetPosition)
    } else if same(key, "BYYEARDAY") {
        Some(ShiftRefusal::YearDay)
    } else if same(key, "BYWEEKNO") {
        Some(ShiftRefusal::WeekNumber)
    } else {
        Some(ShiftRefusal::UnknownPart)
    }
}

proof fn lemma_refusal_stays(parts: Seq<PartText>, i: int)
    requires
        0 <= i <= parts.len(),
        parts_refusal(parts.take(i)) is Some,
    ensures
        parts_refusal(parts) == parts_refusal(parts.take(i)),
    decreases parts.len() - i,
{
    if i < parts.len() {
        assert(parts.take(i + 1).drop_last() =~= parts.take(i));
        lemma_refusal_stays(parts, i + 1);
    } else {
        assert(parts.take(i) =~= parts);
    }
}

fn first_refusal(parts: &[Part]) -> (r: Option<ShiftRefusal>)
    ensures
        r == parts_refusal(part_texts(parts@)),
{
    let ghost all = part_texts(parts@);
    let mut i: usize = 0;
    while i < parts.len()
        invariant
            i <= parts.len(),
            all == part_texts(parts@),
            parts_refusal(all.take(i as int)) is None,
        decreases parts.len() - i,
    {
        assert(all.take(i as int + 1).drop_last() =~= all.take(i as int));
        assert(all.take(i as int + 1).last() == parts@[i as int]@);
        let refusal = key_refusal(parts[i].key.as_str());
        if refusal.is_some() {
            proof {
                lemma_refusal_stays(all, i as int + 1);
            }
            return refusal;
        }
        i = i + 1;
    }
    assert(all.take(i as int) =~= all);
    None
}

fn shift_token(token: &str, days: i32) -> (r: Result<String, ShiftRefusal>)
    ensures
        text_result(r) == moved_token(token@, days as int),
{
    let t = ascii_upper(trim(token, Blank::Unicode).as_str());
    match weekday_of(t.as_str()) {
        Some(day) => Ok(weekday_token(shift_weekday(day, days)).to_owned()),
        None => {
            let chars = chars_of(t.as_str());
            if chars.len() > 2 && ascii_text(chars.as_slice()) {
                let letters = string_of(&chars[chars.len() - 2..chars.len()]);
                assert(letters@ =~= t@.skip(t@.len() - 2));
                if weekday_of(letters.as_str()).is_some() {
                    return Err(ShiftRefusal::OrdinalWeekday);
                }
            }
            Err(ShiftRefusal::Unreadable)
        },
    }
}

proof fn lemma_moved_tokens_stop(tokens: Seq<Seq<char>>, days: int, i: int)
    requires
        0 <= i <= tokens.len(),
        moved_tokens(tokens.take(i), days) is Err,
    ensures
        moved_tokens(tokens, days) == moved_tokens(tokens.take(i), days),
    decreases tokens.len() - i,
{
    if i < tokens.len() {
        assert(tokens.take(i + 1).drop_last() =~= tokens.take(i));
        lemma_moved_tokens_stop(tokens, days, i + 1);
    } else {
        assert(tokens.take(i) =~= tokens);
    }
}

fn shift_tokens(value: &str, days: i32) -> (r: Result<Vec<String>, ShiftRefusal>)
    ensures
        match r {
            Ok(moved) => moved_tokens(split_on(value@, ','), days as int) == Ok::<
                Seq<Seq<char>>,
                ShiftRefusal,
            >(texts(moved@)),
            Err(reason) => moved_tokens(split_on(value@, ','), days as int) == Err::<
                Seq<Seq<char>>,
                ShiftRefusal,
            >(reason),
        },
{
    let tokens = split(value, ',');
    let ghost all = texts(tokens@);
    let mut moved: Vec<String> = Vec::new();
    let mut i: usize = 0;
    assert(texts(moved@) =~= Seq::empty());
    while i < tokens.len()
        invariant
            i <= tokens.len(),
            all == texts(tokens@),
            all == split_on(value@, ','),
            moved_tokens(all.take(i as int), days as int) == Ok::<Seq<Seq<char>>, ShiftRefusal>(
                texts(moved@),
            ),
        decreases tokens.len() - i,
    {
        assert(all.take(i as int + 1).drop_last() =~= all.take(i as int));
        assert(all.take(i as int + 1).last() == tokens@[i as int]@);
        match shift_token(tokens[i].as_str(), days) {
            Ok(t) => {
                proof {
                    lemma_texts_push(moved@, t);
                }
                moved.push(t);
            },
            Err(reason) => {
                proof {
                    lemma_moved_tokens_stop(all, days as int, i as int + 1);
                }
                return Err(reason);
            },
        }
        i = i + 1;
    }
    assert(all.take(i as int) =~= all);
    Ok(moved)
}

fn shift_month_day(token: &str, days: i32) -> (r: Result<String, ShiftRefusal>)
    ensures
        text_result(r) == moved_month_day(token@, days as int),
{
    match parse_signed(
        trim(token, Blank::Unicode).as_str(),
        i32::MIN as i64,
        i32::MAX as i64,
    ) {
        None => Err(ShiftRefusal::Unreadable),
        Some(day) => {
            if day == 0 {
                return Err(ShiftRefusal::Unreadable);
            }
            if day < 0 {
                return Err(ShiftRefusal::NegativeMonthDay);
            }
            let to: i64 = day + days as i64;
            if day > 28 || to < 1 || to > 28 {
                return Err(ShiftRefusal::MonthEnd);
            }
            Ok(signed_decimal_of(to))
        },
    }
}

proof fn lemma_moved_month_days_stop(tokens: Seq<Seq<char>>, days: int, i: int)
    requires
        0 <= i <= tokens.len(),
        moved_month_days(tokens.take(i), days) is Err,
    ensures
        moved_month_days(tokens, days) == moved_month_days(tokens.take(i), days),
    decreases tokens.len() - i,
{
    if i < tokens.len() {
        assert(tokens.take(i + 1).drop_last() =~= tokens.take(i));
        lemma_moved_month_days_stop(tokens, days, i + 1);
    } else {
        assert(tokens.take(i) =~= tokens);
    }
}

fn shift_month_days(value: &str, days: i32) -> (r: Result<Vec<String>, ShiftRefusal>)
    ensures
        match r {
            Ok(moved) => moved_month_days(split_on(value@, ','), days as int) == Ok::<
                Seq<Seq<char>>,
                ShiftRefusal,
            >(texts(moved@)),
            Err(reason) => moved_month_days(split_on(value@, ','), days as int) == Err::<
                Seq<Seq<char>>,
                ShiftRefusal,
            >(reason),
        },
{
    let tokens = split(value, ',');
    let ghost all = texts(tokens@);
    let mut moved: Vec<String> = Vec::new();
    let mut i: usize = 0;
    assert(texts(moved@) =~= Seq::empty());
    while i < tokens.len()
        invariant
            i <= tokens.len(),
            all == texts(tokens@),
            all == split_on(value@, ','),
            moved_month_days(all.take(i as int), days as int) == Ok::<
                Seq<Seq<char>>,
                ShiftRefusal,
            >(texts(moved@)),
        decreases tokens.len() - i,
    {
        assert(all.take(i as int + 1).drop_last() =~= all.take(i as int));
        assert(all.take(i as int + 1).last() == tokens@[i as int]@);
        match shift_month_day(tokens[i].as_str(), days) {
            Ok(t) => {
                proof {
                    lemma_texts_push(moved@, t);
                }
                moved.push(t);
            },
            Err(reason) => {
                proof {
                    lemma_moved_month_days_stop(all, days as int, i as int + 1);
                }
                return Err(reason);
            },
        }
        i = i + 1;
    }
    assert(all.take(i as int) =~= all);
    Ok(moved)
}

fn leaves_period(freq: Freq, a: Date, b: Date) -> (r: bool)
    ensures
        r == leaves_its_period(freq, a@, b@),
{
    match freq {
        Freq::Monthly => a.year() != b.year() || a.month() != b.month(),
        Freq::Yearly => a.year() != b.year(),
        _ => false,
    }
}

fn touches_end_of_february(a: Date, b: Date) -> (r: bool)
    ensures
        r == meets_end_of_february(a@, b@),
{
    if (a.month() == 2 && a.day() == 29) || (b.month() == 2 && b.day() == 29) {
        return true;
    }
    let (early, late) = if b.before(&a) {
        (b, a)
    } else {
        (a, b)
    };
    let mut year: i32 = early.year();
    let last: i32 = late.year();
    while year <= last
        invariant
            FIRST_YEAR <= year <= LAST_YEAR + 1,
            last <= LAST_YEAR,
            last == late@.year,
            early@.year <= year,
            meets_end_of_february(a@, b@) == crosses_february(early@, late@),
            forall|y: int|
                early@.year <= y < year ==> !(!(#[trigger] end_of_february(y)).before(early@)
                    && end_of_february(y).before(late@)),
        decreases last - year + 1,
    {
        let day = month_length(year, 2);
        match Date::from_ymd_opt(year, 2, day) {
            Some(end) => {
                assert(end@ == end_of_february(year as int));
                if !end.before(&early) && end.before(&late) {
                    assert(crosses_february(early@, late@));
                    return true;
                }
            },
            None => {},
        }
        year = year + 1;
    }
    false
}

fn checked_utc_until(moved: &str) -> (r: Result<String, ShiftRefusal>)
    ensures
        text_result(r) == checked_bound(moved@),
{
    let t = trim(moved, Blank::Unicode);
    let m = ascii_upper(t.as_str());
    if !is_utc_date_time(m.as_str()) {
        return Err(ShiftRefusal::Unreadable);
    }
    assert(is_utc_stamp(m@)) by {
        assert(m@[8] == upper(t@[8]));
        assert(m@[15] == upper(t@[15]));
    }
    if !reads_as_utc_stamp(m.as_str()) {
        return Err(ShiftRefusal::Unreadable);
    }
    Ok(m)
}

fn readable_rest(rest: &[char]) -> (r: bool)
    ensures
        r == until_rest_is_readable(rest@),
{
    if rest.len() == 0 {
        return true;
    }
    if rest.len() < 7 || rest[0] != 'T' {
        return false;
    }
    let mut i: usize = 1;
    while i < 7
        invariant
            1 <= i <= 7,
            rest@.len() >= 7,
            forall|j: int| 1 <= j < i ==> is_digit(#[trigger] rest@[j]),
        decreases 7 - i,
    {
        if !digit_char(rest[i]) {
            assert(!is_digit(rest@[i as int]));
            return false;
        }
        i = i + 1;
    }
    rest.len() == 7 || (rest.len() == 8 && rest[7] == 'Z')
}

fn shift_until(value: &str, days: i32) -> (r: Result<String, ShiftRefusal>)
    ensures
        text_result(r) == moved_until(value@, days as int),
{
    let chars = chars_of(value);
    if !ascii_text(chars.as_slice()) || chars.len() < 8 {
        return Err(ShiftRefusal::Unreadable);
    }
    let rest = &chars[8..chars.len()];
    assert(rest@ =~= value@.skip(8));
    if !readable_rest(rest) {
        return Err(ShiftRefusal::Unreadable);
    }
    let date = string_of(&chars[0..8]);
    assert(date@ =~= value@.take(8));
    match parse_date(date.as_str(), "%Y%m%d") {
        None => Err(ShiftRefusal::Unreadable),
        Some(parsed) => match add_days(parsed, days as i64) {
            None => Err(ShiftRefusal::Unreadable),
            Some(moved) => {
                let mut out = write_compact(moved);
                out.append(string_of(rest).as_str());
                Ok(out)
            },
        },
    }
}

fn find_new_value<'a>(replaced: &'a [Replacement], key: &str) -> (r: Option<&'a str>)
    ensures
        match r {
            Some(v) => new_value(replacements(replaced@), key@) == Some(v@),
            None => new_value(replacements(replaced@), key@) is None,
        },
{
    let ghost all = replacements(replaced@);
    let mut i: usize = 0;
    while i < replaced.len()
        invariant
            i <= replaced.len(),
            all == replacements(replaced@),
            new_value(all.take(i as int), key@) is None,
        decreases replaced.len() - i,
    {
        assert(all.take(i as int + 1).drop_last() =~= all.take(i as int));
        assert(all.take(i as int + 1).last() == (
            replaced@[i as int].key@,
            replaced@[i as int].value@,
        ));
        if same(replaced[i].key.as_str(), key) {
            proof {
                lemma_new_value_stays(all, key@, i as int + 1);
            }
            return Some(replaced[i].value.as_str());
        }
        i = i + 1;
    }
    assert(all.take(i as int) =~= all);
    None
}

proof fn lemma_new_value_stays(replaced: Seq<(Seq<char>, Seq<char>)>, key: Seq<char>, i: int)
    requires
        0 <= i <= replaced.len(),
        new_value(replaced.take(i), key) is Some,
    ensures
        new_value(replaced, key) == new_value(replaced.take(i), key),
    decreases replaced.len() - i,
{
    if i < replaced.len() {
        assert(replaced.take(i + 1).drop_last() =~= replaced.take(i));
        lemma_new_value_stays(replaced, key, i + 1);
    } else {
        assert(replaced.take(i) =~= replaced);
    }
}

fn named(parts: &[Part], key: &str) -> (r: bool)
    ensures
        r == has_key(part_texts(parts@), key@),
{
    let mut i: usize = 0;
    while i < parts.len()
        invariant
            i <= parts.len(),
            forall|j: int| 0 <= j < i ==> (#[trigger] part_texts(parts@)[j]).key != key@,
        decreases parts.len() - i,
    {
        if same(parts[i].key.as_str(), key) {
            assert(part_texts(parts@)[i as int].key == key@);
            return true;
        }
        i = i + 1;
    }
    false
}

fn write(prefix: &str, parts: &[Part], replaced: &[Replacement]) -> (r: String)
    ensures
        r@ == written_rule(prefix@, part_texts(parts@), replacements(replaced@)),
{
    let ghost all = part_texts(parts@);
    let ghost new = replacements(replaced@);
    let ghost kept = Seq::new(all.len(), |i: int| written_part(all[i], new));
    let mut out: Vec<String> = Vec::new();
    let mut i: usize = 0;
    while i < parts.len()
        invariant
            i <= parts.len(),
            all == part_texts(parts@),
            new == replacements(replaced@),
            kept == Seq::new(all.len(), |i: int| written_part(all[i], new)),
            texts(out@) == kept.take(i as int),
        decreases parts.len() - i,
    {
        let one = match find_new_value(replaced, parts[i].key.as_str()) {
            Some(v) => {
                let mut s = parts[i].key.clone();
                s.append("=");
                s.append(v);
                s
            },
            None => trim(parts[i].raw.as_str(), Blank::Unicode),
        };
        assert(one@ == written_part(all[i as int], new));
        proof {
            lemma_texts_push(out@, one);
        }
        out.push(one);
        i = i + 1;
        assert(texts(out@) =~= kept.take(i as int));
    }
    assert(kept.take(i as int) =~= kept);
    match find_new_value(replaced, "WKST") {
        Some(v) => {
            if !named(parts, "WKST") {
                let mut s: String = String::new();
                s.append("WKST=");
                s.append(v);
                assert(s@ =~= "WKST="@ + v@);
                proof {
                    lemma_texts_push(out@, s);
                }
                out.push(s);
                assert(texts(out@) =~= kept + seq!["WKST="@ + v@]);
            } else {
                assert(kept + Seq::<Seq<char>>::empty() =~= kept);
            }
        },
        None => {
            assert(kept + Seq::<Seq<char>>::empty() =~= kept);
        },
    }
    let mut rule: String = String::new();
    rule.append(prefix);
    rule.append(join(out.as_slice(), ";").as_str());
    assert(rule@ =~= prefix@ + joined(texts(out@), ";"@));
    rule
}

fn replace(list: &mut Vec<Replacement>, key: &str, value: Option<String>)
    ensures
        replacements(final(list)@) == replacements(old(list)@) + replaced(
            key@,
            crate::text::optional_text(value),
        ),
{
    if let Some(v) = value {
        list.push(Replacement { key: key.to_owned(), value: v });
        assert(replacements(list@) =~= replacements(old(list)@) + seq![(key@, v@)]);
    } else {
        assert(replacements(list@) =~= replacements(old(list)@) + Seq::empty());
    }
}

fn by_day_shift(parts: &[Part], days: i32, some_months: bool) -> (r: Result<
    Option<String>,
    ShiftRefusal,
>)
    ensures
        optional_result(r) == new_by_day(part_texts(parts@), days as int, some_months),
{
    match part(parts, "BYDAY") {
        None => Ok(None),
        Some(value) => match shift_tokens(value, days) {
            Err(reason) => Err(reason),
            Ok(tokens) => if some_months {
                Err(ShiftRefusal::LimitedMonths)
            } else {
                Ok(Some(join(tokens.as_slice(), ",")))
            },
        },
    }
}

fn by_month_day_shift(parts: &[Part], days: i32, start_leaves: bool) -> (r: Result<
    Option<String>,
    ShiftRefusal,
>)
    ensures
        optional_result(r) == new_by_month_day(part_texts(parts@), days as int, start_leaves),
{
    match part(parts, "BYMONTHDAY") {
        None => Ok(None),
        Some(value) => match shift_month_days(value, days) {
            Err(reason) => Err(reason),
            Ok(tokens) => if start_leaves {
                Err(ShiftRefusal::LimitedMonths)
            } else {
                Ok(Some(join(tokens.as_slice(), ",")))
            },
        },
    }
}

fn refused_start(parts: &[Part], freq: Freq, start: Date, moved: Date) -> (r: Option<ShiftRefusal>)
    ensures
        r == start_refusal(part_texts(parts@), freq, start@, moved@),
{
    let by_month = part(parts, "BYMONTH").is_some();
    if part(parts, "BYDAY").is_some() || part(parts, "BYMONTHDAY").is_some() {
        return None;
    }
    let monthly = match freq {
        Freq::Monthly => true,
        _ => false,
    };
    let yearly = match freq {
        Freq::Yearly => true,
        _ => false,
    };
    if monthly || (yearly && by_month) {
        if start.day() > 28 || moved.day() > 28 {
            return Some(ShiftRefusal::MonthEnd);
        }
        if start.year() != moved.year() || start.month() != moved.month() {
            return Some(
                if by_month {
                    ShiftRefusal::LimitedMonths
                } else {
                    ShiftRefusal::MonthEnd
                },
            );
        }
        None
    } else if yearly && touches_end_of_february(start, moved) {
        Some(ShiftRefusal::LeapDay)
    } else {
        None
    }
}

fn week_start_shift(parts: &[Part], freq: Freq, interval: u32, days: i32) -> (r: Result<
    Option<String>,
    ShiftRefusal,
>)
    ensures
        optional_result(r) == new_week_start(part_texts(parts@), freq, interval, days as int),
{
    let weekly = match freq {
        Freq::Weekly => true,
        _ => false,
    };
    if !weekly || interval <= 1 {
        return Ok(None);
    }
    match part(parts, "WKST") {
        Some(value) => match weekday_of(ascii_upper(value).as_str()) {
            Some(day) => Ok(Some(weekday_token(shift_weekday(day, days)).to_owned())),
            None => Err(ShiftRefusal::Unreadable),
        },
        None => if part(parts, "BYDAY").is_some() {
            Ok(Some(weekday_token(shift_weekday(Weekday::Monday, days)).to_owned()))
        } else {
            Ok(None)
        },
    }
}

fn until_shift(parts: &[Part], days: i32, until: Option<&str>) -> (r: Result<
    Option<String>,
    ShiftRefusal,
>)
    ensures
        optional_result(r) == new_until(part_texts(parts@), days as int, optional_str(until)),
{
    match part(parts, "UNTIL") {
        None => Ok(None),
        Some(value) => {
            let moved = match until {
                Some(bound) => if is_utc_date_time(value) {
                    checked_utc_until(bound)
                } else {
                    shift_until(value, days)
                },
                None => shift_until(value, days),
            };
            match moved {
                Ok(m) => Ok(Some(m)),
                Err(reason) => Err(reason),
            }
        },
    }
}

fn keep_days(rule: String, prefix: &str, parts: &[Part], until: Option<&str>) -> (r: Result<
    String,
    ShiftRefusal,
>)
    ensures
        text_result(r) == unmoved(rule@, prefix@, part_texts(parts@), optional_str(until)),
{
    match (part(parts, "UNTIL"), until) {
        (Some(value), Some(bound)) => {
            if !is_utc_date_time(value) {
                return Ok(rule);
            }
            match checked_utc_until(bound) {
                Err(reason) => Err(reason),
                Ok(m) => {
                    let mut list: Vec<Replacement> = Vec::new();
                    assert(replacements(list@) =~= Seq::empty());
                    let ghost new = m@;
                    replace(&mut list, "UNTIL", Some(m));
                    assert(replacements(list@) =~= seq![("UNTIL"@, new)]);
                    Ok(write(prefix, parts, list.as_slice()))
                },
            }
        },
        _ => Ok(rule),
    }
}

fn move_days(
    prefix: &str,
    parts: &[Part],
    freq: Freq,
    start: Date,
    days: i32,
    until: Option<&str>,
) -> (r: Result<String, ShiftRefusal>)
    ensures
        text_result(r) == moved_rule(
            prefix@,
            part_texts(parts@),
            freq,
            start@,
            days as int,
            optional_str(until),
        ),
{
    if let Some(reason) = first_refusal(parts) {
        return Err(reason);
    }
    let interval: u32 = match parse_interval(part(parts, "INTERVAL")) {
        Some(n) => n,
        None => {
            return Err(ShiftRefusal::Unreadable);
        },
    };
    let by_month = part(parts, "BYMONTH").is_some();
    let by_months = match freq {
        Freq::Monthly | Freq::Yearly => true,
        _ => false,
    };
    if by_month && !by_months {
        return Err(ShiftRefusal::LimitedMonths);
    }
    let moved = match add_days(start, days as i64) {
        Some(d) => d,
        None => {
            return Err(ShiftRefusal::Unreadable);
        },
    };
    let mut list: Vec<Replacement> = Vec::new();
    assert(replacements(list@) =~= Seq::empty());
    match by_day_shift(parts, days, by_months && (by_month || interval > 1)) {
        Err(reason) => {
            return Err(reason);
        },
        Ok(value) => {
            replace(&mut list, "BYDAY", value);
        },
    }
    match by_month_day_shift(parts, days, interval > 1 && leaves_period(freq, start, moved)) {
        Err(reason) => {
            return Err(reason);
        },
        Ok(value) => {
            replace(&mut list, "BYMONTHDAY", value);
        },
    }
    if let Some(reason) = refused_start(parts, freq, start, moved) {
        return Err(reason);
    }
    match week_start_shift(parts, freq, interval, days) {
        Err(reason) => {
            return Err(reason);
        },
        Ok(value) => {
            replace(&mut list, "WKST", value);
        },
    }
    match until_shift(parts, days, until) {
        Err(reason) => {
            return Err(reason);
        },
        Ok(value) => {
            replace(&mut list, "UNTIL", value);
        },
    }
    proof {
        let text = part_texts(parts@);
        let by_day = new_by_day(text, days as int, by_months && (by_month || interval > 1))->Ok_0;
        let by_month_day = new_by_month_day(
            text,
            days as int,
            interval > 1 && leaves_its_period(freq, start@, moved@),
        )->Ok_0;
        let week_start = new_week_start(text, freq, interval, days as int)->Ok_0;
        let bound = new_until(text, days as int, optional_str(until))->Ok_0;
        assert(replacements(list@) =~= replaced("BYDAY"@, by_day) + replaced(
            "BYMONTHDAY"@,
            by_month_day,
        ) + replaced("WKST"@, week_start) + replaced("UNTIL"@, bound));
    }
    Ok(write(prefix, parts, list.as_slice()))
}

fn shift(
    rrule: &str,
    start: Date,
    days: i32,
    time_changes: bool,
    until: Option<&str>,
) -> (r: Result<String, ShiftRefusal>)
    ensures
        text_result(r) == shifted(
            rrule@,
            start@,
            days as int,
            time_changes,
            optional_str(until),
        ),
{
    let rule = trim(rrule, Blank::Unicode);
    let (prefix, parts) = match parse_parts(rule.as_str()) {
        Ok(read) => read,
        Err(_) => {
            return Err(ShiftRefusal::Unreadable);
        },
    };
    let parts = parts.as_slice();
    let freq = match part(parts, "FREQ") {
        None => {
            return Err(ShiftRefusal::Unreadable);
        },
        Some(value) => match parse_freq(value) {
            None => {
                return Err(ShiftRefusal::Unreadable);
            },
            Some(freq) => freq,
        },
    };
    let timed = part(parts, "BYHOUR").is_some() || part(parts, "BYMINUTE").is_some() || part(
        parts,
        "BYSECOND",
    ).is_some();
    if time_changes && timed {
        return Err(ShiftRefusal::TimeOfDay);
    }
    if days == 0 {
        keep_days(rule, prefix.as_str(), parts, until)
    } else {
        move_days(prefix.as_str(), parts, freq, start, days, until)
    }
}

/// The rule for a series that starts on `start` and moves by `days`, with the
/// time of day changing too when `time_changes`. `until` is the moved UTC
/// bound, see [`SeriesShiftQuestion::until`].
pub fn shift_series(
    rrule: &str,
    start: Date,
    days: i32,
    time_changes: bool,
    until: Option<&str>,
) -> (r: SeriesShift)
    ensures
        shift_said(r) == shifted(rrule@, start@, days as int, time_changes, optional_str(until)),
{
    match shift(rrule, start, days, time_changes, until) {
        Ok(rrule) => SeriesShift::Shifted { rrule },
        Err(reason) => SeriesShift::Refused { reason },
    }
}

/// What the answer to a question says: a start day that cannot be read makes
/// the series unreadable.
pub open spec fn question_answer(q: SeriesShiftQuestion) -> Result<Seq<char>, ShiftRefusal> {
    match read_date(q.start@, "%Y-%m-%d"@) {
        None => Err(ShiftRefusal::Unreadable),
        Some(start) => shifted(
            q.rrule@,
            start,
            q.days as int,
            q.time_changes,
            crate::text::optional_text(q.until),
        ),
    }
}

/// The answer to a question, its start day read from text.
pub fn answer_series_shift(question: &SeriesShiftQuestion) -> (r: SeriesShift)
    ensures
        shift_said(r) == question_answer(*question),
{
    let until = match &question.until {
        Some(s) => Some(s.as_str()),
        None => None,
    };
    match parse_date(question.start.as_str(), "%Y-%m-%d") {
        Some(start) => shift_series(
            question.rrule.as_str(),
            start,
            question.days,
            question.time_changes,
            until,
        ),
        None => SeriesShift::Refused { reason: ShiftRefusal::Unreadable },
    }
}

/// A series that stays on its days keeps its rule as it was written, apart from
/// the white space around it, unless a new bound is handed in.
pub proof fn no_shift_leaves_the_rule_as_written(
    rrule: Seq<char>,
    start: Ymd,
    time_changes: bool,
)
    ensures
        match shifted(rrule, start, 0, time_changes, None) {
            Ok(rule) => rule == trimmed(rrule, Blank::Unicode),
            Err(reason) => reason is Unreadable || (time_changes && reason is TimeOfDay),
        },
{
}

} // verus!
