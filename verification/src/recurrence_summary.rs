//! A repeat rule in words.
//!
//! What the sentence says is a rule; the words live elsewhere. The answer is
//! keys and values: `every`, an optional `on`, an optional `end`. The rule is
//! read by [`crate::rrule_parts`], the same reading that moves a series.
//!
//! **A shape without a sentence is named, not guessed.** Nothing falls back to
//! "the rule's first weekday" or drops a part it does not understand:
//! [`RecurrenceSummary::Undescribed`] says so.
//!
//! The day an `UNTIL` rule last falls on is worked out by whoever expands the
//! series, and handed in as [`RecurrenceSummaryQuestion::last_day`].

use vstd::prelude::*;

use crate::civil::{days_from_monday, optional_day, parse_date, read_date, Date, Ymd};
use crate::rrule_parts::{
    freq_in, interval_in, parse_freq, parse_interval, parse_parts, parse_weekday_token, part,
    part_texts, rule_parts, value_of, weekday_token_in, Freq, Part, PartText,
};
use crate::text::{
    ascii_upper, is_blank, lemma_trimmed_empty, optional_str, optional_text, parse_signed,
    parse_unsigned, same, signed_in, split, split_on, texts, trim, trimmed, unsigned_in, uppercase,
    Blank,
};
use crate::types::{weekday_at, weekday_from_monday, Weekday};

verus! {

/// Everything the sentence needs.
#[derive(Debug, Clone, PartialEq, Eq)]
pub struct RecurrenceSummaryQuestion {
    /// The rule, with or without the `RRULE:` prefix. Empty: no repeat.
    pub rrule: String,
    /// The day the series starts, `YYYY-MM-DD` on the series' own clock. A
    /// rule leaves out what its start already says ("every month" repeats on
    /// the start's day of the month).
    pub start: String,
    /// The day the last occurrence of a bounded rule falls on, same clock,
    /// where it is known. Without it the sentence says "with an end date".
    pub last_day: Option<String>,
}

/// One part of the sentence: a key to look up, and the values it takes.
#[derive(Debug, Clone, PartialEq, Eq)]
pub struct Phrase {
    /// The full key, for example `recurrenceSummary.every.week`.
    pub key: String,
    /// A count, which also picks the plural form.
    pub count: Option<u32>,
    /// Days of the week, Monday first whatever order the rule listed them.
    pub weekdays: Vec<Weekday>,
    /// One day of the week.
    pub weekday: Option<Weekday>,
    /// A position in the month or year: 1 to 5, or -1 for the last.
    pub ordinal: Option<i8>,
    /// Days of the month, in order.
    pub month_days: Vec<u8>,
    /// A month, 1 to 12.
    pub month: Option<u8>,
    /// A day, `YYYY-MM-DD`, for the end of a bounded rule.
    pub date: Option<String>,
    /// A set of days a position counts within.
    pub set: Option<DaySet>,
}

/// The set a position counts within, for rules written with `BYSETPOS`.
#[derive(Debug, Clone, Copy, PartialEq, Eq, Structural)]
pub enum DaySet {
    /// Monday to Friday.
    Weekday,
    /// Saturday and Sunday.
    WeekendDay,
}

/// The unit a rule repeats in.
#[derive(Debug, Clone, Copy, PartialEq, Eq, Structural)]
pub enum RepeatUnit {
    Second,
    Minute,
    Hour,
    Day,
    Week,
    Month,
    Year,
}

/// Why a rule was not put into words.
#[derive(Debug, Clone, Copy, PartialEq, Eq, Structural)]
pub enum UndescribedReason {
    /// The rule, its `FREQ`, a value in it or the start day cannot be read, or
    /// a part is given twice.
    Unreadable,
    /// A part without words, such as `BYWEEKNO` or `BYYEARDAY`.
    UnknownPart,
    /// A `BYSETPOS` over a set of days that is not "the workdays", "the
    /// weekend" or "every day".
    SetPosition,
    /// A position without words, such as the second-to-last Friday.
    Ordinal,
    /// Several positions in one rule ("the first and third Monday").
    SeveralPositions,
    /// The rule recurs only in some months.
    LimitedMonths,
    /// Days of the month counted from both ends, or several from the end.
    MixedMonthDays,
    /// `COUNT=0`: the rule names no occurrence at all.
    NoOccurrences,
    /// Every other week with a week that does not start on Monday: which days
    /// share a week then depends on `WKST`.
    WeekStart,
    /// `COUNT` and `UNTIL` together, which RFC 5545 forbids and readers
    /// disagree about.
    CountAndUntil,
}

/// The sentence, or why there is none.
#[derive(Debug, Clone, PartialEq, Eq)]
pub enum RecurrenceSummary {
    /// The event does not repeat.
    NoRepeat,
    /// The sentence: `key` takes `every`, `on` and `end` as values.
    Described { key: String, every: Phrase, on: Option<Phrase>, end: Option<Phrase> },
    /// The rule says something without words. The unit is filled whenever
    /// `FREQ` was read.
    Undescribed { reason: UndescribedReason, unit: Option<RepeatUnit> },
}

/// Every key a sentence can be made of.
pub const SUMMARY_KEYS: [&'static str; 29] = [
    "recurrenceSummary.sentence.every",
    "recurrenceSummary.sentence.everyOn",
    "recurrenceSummary.sentence.everyEnd",
    "recurrenceSummary.sentence.everyOnEnd",
    "recurrenceSummary.every.second",
    "recurrenceSummary.every.minute",
    "recurrenceSummary.every.hour",
    "recurrenceSummary.every.day",
    "recurrenceSummary.every.month",
    "recurrenceSummary.every.year",
    "recurrenceSummary.interval.second",
    "recurrenceSummary.interval.minute",
    "recurrenceSummary.interval.hour",
    "recurrenceSummary.interval.day",
    "recurrenceSummary.interval.week",
    "recurrenceSummary.interval.month",
    "recurrenceSummary.interval.year",
    "recurrenceSummary.weekly.onDays",
    "recurrenceSummary.weekly.workdays",
    "recurrenceSummary.on.weekdays",
    "recurrenceSummary.on.monthDay",
    "recurrenceSummary.on.lastDay",
    "recurrenceSummary.on.nthWeekday",
    "recurrenceSummary.on.nthOfSet",
    "recurrenceSummary.on.dateInYear",
    "recurrenceSummary.on.nthWeekdayInMonth",
    "recurrenceSummary.end.count",
    "recurrenceSummary.end.lastOn",
    "recurrenceSummary.end.bounded",
];

// ---------------------------------------------------------------------------
// What the answers hold
// ---------------------------------------------------------------------------

/// What a [`Phrase`] holds.
pub struct PhraseText {
    pub key: Seq<char>,
    pub count: Option<u32>,
    pub weekdays: Seq<Weekday>,
    pub weekday: Option<Weekday>,
    pub ordinal: Option<i8>,
    pub month_days: Seq<u8>,
    pub month: Option<u8>,
    pub date: Option<Seq<char>>,
    pub set: Option<DaySet>,
}

impl View for Phrase {
    type V = PhraseText;

    open spec fn view(&self) -> PhraseText {
        PhraseText {
            key: self.key@,
            count: self.count,
            weekdays: self.weekdays@,
            weekday: self.weekday,
            ordinal: self.ordinal,
            month_days: self.month_days@,
            month: self.month,
            date: optional_text(self.date),
            set: self.set,
        }
    }
}

/// What an optional phrase holds.
pub open spec fn optional_phrase(p: Option<Phrase>) -> Option<PhraseText> {
    match p {
        Some(p) => Some(p@),
        None => None,
    }
}

/// What a [`RecurrenceSummary`] holds.
pub enum SummaryText {
    NoRepeat,
    Described {
        key: Seq<char>,
        every: PhraseText,
        on: Option<PhraseText>,
        end: Option<PhraseText>,
    },
    Undescribed { reason: UndescribedReason, unit: Option<RepeatUnit> },
}

impl View for RecurrenceSummary {
    type V = SummaryText;

    open spec fn view(&self) -> SummaryText {
        match *self {
            RecurrenceSummary::NoRepeat => SummaryText::NoRepeat,
            RecurrenceSummary::Described { key, every, on, end } => SummaryText::Described {
                key: key@,
                every: every@,
                on: optional_phrase(on),
                end: optional_phrase(end),
            },
            RecurrenceSummary::Undescribed { reason, unit } => SummaryText::Undescribed {
                reason,
                unit,
            },
        }
    }
}

/// A full key.
pub open spec fn full_key(name: Seq<char>) -> Seq<char> {
    "recurrenceSummary."@ + name
}

/// A phrase with a key and no values.
pub open spec fn bare_phrase(name: Seq<char>) -> PhraseText {
    PhraseText {
        key: full_key(name),
        count: None,
        weekdays: Seq::empty(),
        weekday: None,
        ordinal: None,
        month_days: Seq::empty(),
        month: None,
        date: None,
        set: None,
    }
}

// ---------------------------------------------------------------------------
// What the sentence says
// ---------------------------------------------------------------------------

pub open spec fn unit_of(freq: Freq) -> RepeatUnit {
    match freq {
        Freq::Secondly => RepeatUnit::Second,
        Freq::Minutely => RepeatUnit::Minute,
        Freq::Hourly => RepeatUnit::Hour,
        Freq::Daily => RepeatUnit::Day,
        Freq::Weekly => RepeatUnit::Week,
        Freq::Monthly => RepeatUnit::Month,
        Freq::Yearly => RepeatUnit::Year,
    }
}

pub open spec fn unit_name(unit: RepeatUnit) -> Seq<char> {
    match unit {
        RepeatUnit::Second => "second"@,
        RepeatUnit::Minute => "minute"@,
        RepeatUnit::Hour => "hour"@,
        RepeatUnit::Day => "day"@,
        RepeatUnit::Week => "week"@,
        RepeatUnit::Month => "month"@,
        RepeatUnit::Year => "year"@,
    }
}

/// How often: "every week" or "every 2 weeks".
pub open spec fn every_said(unit: RepeatUnit, interval: u32) -> PhraseText {
    if interval == 1 {
        bare_phrase("every."@ + unit_name(unit))
    } else {
        PhraseText { count: Some(interval), ..bare_phrase("interval."@ + unit_name(unit)) }
    }
}

/// The end of a bounded rule: a count, the last day where it is known, or that
/// there is an end.
pub open spec fn end_said(parts: Seq<PartText>, last_day: Option<Seq<char>>) -> Result<
    Option<PhraseText>,
    UndescribedReason,
> {
    let count = value_of(parts, "COUNT"@);
    let until = value_of(parts, "UNTIL"@);
    if count is Some && until is Some {
        Err(UndescribedReason::CountAndUntil)
    } else if count is Some {
        match unsigned_in(count->0) {
            Some(n) => if n > u32::MAX {
                Err(UndescribedReason::Unreadable)
            } else if n == 0 {
                Err(UndescribedReason::NoOccurrences)
            } else {
                Ok(Some(PhraseText { count: Some(n as u32), ..bare_phrase("end.count"@) }))
            },
            None => Err(UndescribedReason::Unreadable),
        }
    } else if until is Some {
        match last_day {
            Some(day) => if is_blank(day, Blank::Unicode) {
                Ok(Some(bare_phrase("end.bounded"@)))
            } else {
                Ok(
                    Some(
                        PhraseText {
                            date: Some(trimmed(day, Blank::Unicode)),
                            ..bare_phrase("end.lastOn"@)
                        },
                    ),
                )
            },
            None => Ok(Some(bare_phrase("end.bounded"@))),
        }
    } else {
        Ok(None)
    }
}

/// Why a `BYDAY` token is no plain weekday: it carries an ordinal, or names
/// nothing.
pub open spec fn plain_refusal(token: Seq<char>) -> Option<UndescribedReason> {
    match weekday_token_in(token) {
        Some((None, _)) => None,
        Some((Some(_), _)) => Some(UndescribedReason::Ordinal),
        None => Some(UndescribedReason::Unreadable),
    }
}

/// The refusal of the first token that is no plain weekday.
pub open spec fn plain_refusals(tokens: Seq<Seq<char>>) -> Option<UndescribedReason>
    decreases tokens.len(),
{
    if tokens.len() == 0 {
        None
    } else {
        match plain_refusals(tokens.drop_last()) {
            Some(reason) => Some(reason),
            None => plain_refusal(tokens.last()),
        }
    }
}

/// One token is the plain weekday `day`.
pub open spec fn lists_day(tokens: Seq<Seq<char>>, day: Weekday) -> bool {
    exists|i: int|
        0 <= i < tokens.len() && weekday_token_in(#[trigger] tokens[i]) == Some(
            (None::<i8>, day),
        )
}

/// The listed weekdays among the first `n` of the week, in the week's order.
pub open spec fn days_in_order(tokens: Seq<Seq<char>>, n: int) -> Seq<Weekday>
    decreases n,
{
    if n <= 0 {
        Seq::empty()
    } else {
        let before = days_in_order(tokens, n - 1);
        if lists_day(tokens, weekday_at(n - 1)) {
            before.push(weekday_at(n - 1))
        } else {
            before
        }
    }
}

/// `BYDAY` as plain weekdays, Monday first, each once.
pub open spec fn plain_days(value: Seq<char>) -> Result<Seq<Weekday>, UndescribedReason> {
    let tokens = split_on(value, ',');
    match plain_refusals(tokens) {
        Some(reason) => Err(reason),
        None => Ok(days_in_order(tokens, 7)),
    }
}

pub open spec fn workdays() -> Seq<Weekday> {
    seq![
        Weekday::Monday,
        Weekday::Tuesday,
        Weekday::Wednesday,
        Weekday::Thursday,
        Weekday::Friday,
    ]
}

pub open spec fn weekend() -> Seq<Weekday> {
    seq![Weekday::Saturday, Weekday::Sunday]
}

pub open spec fn whole_week() -> Seq<Weekday> {
    workdays() + weekend()
}

/// "every Monday and Wednesday", or the workday phrase for Monday to Friday.
pub open spec fn weekly_said(days: Seq<Weekday>) -> PhraseText {
    if days == workdays() {
        bare_phrase("weekly.workdays"@)
    } else {
        PhraseText { weekdays: days, ..bare_phrase("weekly.onDays"@) }
    }
}

/// A day of the month a token names, counted from the end where negative.
pub open spec fn month_day_token(token: Seq<char>) -> Option<int> {
    match signed_in(trimmed(token, Blank::Unicode)) {
        Some(n) => if -31 <= n <= 31 && n != 0 {
            Some(n)
        } else {
            None
        },
        None => None,
    }
}

/// One token names the day `day` of the month.
pub open spec fn lists_month_day(tokens: Seq<Seq<char>>, day: int) -> bool {
    exists|i: int| 0 <= i < tokens.len() && month_day_token(#[trigger] tokens[i]) == Some(day)
}

/// The listed days of the month up to `n`, in order.
pub open spec fn month_days_in_order(tokens: Seq<Seq<char>>, n: int) -> Seq<u8>
    decreases n,
{
    if n <= 0 {
        Seq::empty()
    } else {
        let before = month_days_in_order(tokens, n - 1);
        if lists_month_day(tokens, n) {
            before.push(n as u8)
        } else {
            before
        }
    }
}

/// `BYMONTHDAY`: days counted from the start of the month, or the last day.
pub open spec fn month_days_said(value: Seq<char>) -> Result<PhraseText, UndescribedReason> {
    let tokens = split_on(value, ',');
    if exists|i: int| 0 <= i < tokens.len() && month_day_token(#[trigger] tokens[i]) is None {
        Err(UndescribedReason::Unreadable)
    } else if forall|i: int|
        0 <= i < tokens.len() ==> month_day_token(#[trigger] tokens[i]) == Some(-1int) {
        Ok(bare_phrase("on.lastDay"@))
    } else if exists|i: int|
        0 <= i < tokens.len() && (month_day_token(#[trigger] tokens[i])->0) < 0 {
        Err(UndescribedReason::MixedMonthDays)
    } else {
        let days = month_days_in_order(tokens, 31);
        Ok(
            PhraseText {
                count: Some(days.len() as u32),
                month_days: days,
                ..bare_phrase("on.monthDay"@)
            },
        )
    }
}

/// A position that has words: the first five, and the last.
pub open spec fn is_worded(position: int) -> bool {
    1 <= position <= 5 || position == -1
}

/// `BYDAY` with one ordinal: "the second Tuesday", "the last Friday".
pub open spec fn nth_weekday_said(value: Seq<char>) -> Result<PhraseText, UndescribedReason> {
    let tokens = split_on(value, ',');
    if tokens.len() > 1 {
        Err(UndescribedReason::SeveralPositions)
    } else {
        match weekday_token_in(tokens[0]) {
            Some((Some(ordinal), day)) => if is_worded(ordinal as int) {
                Ok(
                    PhraseText {
                        ordinal: Some(ordinal),
                        weekday: Some(day),
                        ..bare_phrase("on.nthWeekday"@)
                    },
                )
            } else {
                Err(UndescribedReason::Ordinal)
            },
            Some((None, _)) => Err(UndescribedReason::UnknownPart),
            None => Err(UndescribedReason::Unreadable),
        }
    }
}

/// `BYSETPOS` over a set of days: "the last workday", "the first weekend day",
/// or, over all seven days, simply that day of the month.
pub open spec fn set_position_said(days: Seq<char>, set_pos: Seq<char>) -> Result<
    PhraseText,
    UndescribedReason,
> {
    let positions = split_on(set_pos, ',');
    if positions.len() > 1 {
        Err(UndescribedReason::SeveralPositions)
    } else {
        match signed_in(trimmed(positions[0], Blank::Unicode)) {
            None => Err(UndescribedReason::Unreadable),
            Some(position) => if position < i8::MIN || position > i8::MAX {
                Err(UndescribedReason::Unreadable)
            } else if !is_worded(position) {
                Err(UndescribedReason::Ordinal)
            } else {
                match plain_days(days) {
                    Err(reason) => Err(reason),
                    Ok(days) => if days == whole_week() {
                        if position == -1 {
                            Ok(bare_phrase("on.lastDay"@))
                        } else {
                            Ok(
                                PhraseText {
                                    count: Some(1),
                                    month_days: seq![position as u8],
                                    ..bare_phrase("on.monthDay"@)
                                },
                            )
                        }
                    } else if days == workdays() {
                        Ok(set_said(position, DaySet::Weekday))
                    } else if days == weekend() {
                        Ok(set_said(position, DaySet::WeekendDay))
                    } else {
                        Err(UndescribedReason::SetPosition)
                    },
                }
            },
        }
    }
}

pub open spec fn set_said(position: int, set: DaySet) -> PhraseText {
    PhraseText { ordinal: Some(position as i8), set: Some(set), ..bare_phrase("on.nthOfSet"@) }
}

/// `BYMONTH` naming exactly one month.
pub open spec fn one_month(value: Seq<char>) -> Result<u8, UndescribedReason> {
    let months = split_on(value, ',');
    if months.len() > 1 {
        Err(UndescribedReason::LimitedMonths)
    } else {
        match unsigned_in(trimmed(months[0], Blank::Unicode)) {
            Some(n) => if 1 <= n <= 12 {
                Ok(n as u8)
            } else {
                Err(UndescribedReason::Unreadable)
            },
            None => Err(UndescribedReason::Unreadable),
        }
    }
}

/// `BYMONTHDAY` naming exactly one day from the start of the month.
pub open spec fn one_month_day(value: Seq<char>) -> Result<u8, UndescribedReason> {
    let days = split_on(value, ',');
    if days.len() > 1 {
        Err(UndescribedReason::MixedMonthDays)
    } else {
        match signed_in(trimmed(days[0], Blank::Unicode)) {
            None => Err(UndescribedReason::Unreadable),
            Some(n) => if n < i8::MIN || n > i8::MAX {
                Err(UndescribedReason::Unreadable)
            } else if 1 <= n <= 31 {
                Ok(n as u8)
            } else {
                Err(UndescribedReason::MixedMonthDays)
            },
        }
    }
}

/// What a question holds.
pub struct QuestionText {
    pub rrule: Seq<char>,
    pub start: Seq<char>,
    pub last_day: Option<Seq<char>>,
}

impl View for RecurrenceSummaryQuestion {
    type V = QuestionText;

    open spec fn view(&self) -> QuestionText {
        QuestionText {
            rrule: self.rrule@,
            start: self.start@,
            last_day: optional_text(self.last_day),
        }
    }
}

/// The day the series starts.
pub open spec fn start_in(start: Seq<char>) -> Option<Ymd> {
    read_date(trimmed(start, Blank::Unicode), "%Y-%m-%d"@)
}

/// What the `on` half of the sentence is, if there is one.
pub enum OnText {
    /// The days are said in the "every" half.
    Replaces(PhraseText),
    Beside(PhraseText),
    Nothing,
}

/// A daily rule on weekdays is the weekly rule written the other way round,
/// but only without an interval: "every 2 days on Monday" counts days.
pub open spec fn on_daily(parts: Seq<PartText>, interval: u32) -> Result<
    OnText,
    UndescribedReason,
> {
    if value_of(parts, "BYMONTHDAY"@) is Some || value_of(parts, "BYSETPOS"@) is Some {
        Err(UndescribedReason::UnknownPart)
    } else {
        match value_of(parts, "BYDAY"@) {
            None => Ok(OnText::Nothing),
            Some(value) => if interval != 1 {
                Err(UndescribedReason::UnknownPart)
            } else {
                match plain_days(value) {
                    Err(reason) => Err(reason),
                    Ok(days) => Ok(OnText::Replaces(weekly_said(days))),
                }
            },
        }
    }
}

/// A weekly rule repeats on its days, or on the start's. With an interval and
/// several days, which days share a week depends on where the week begins.
pub open spec fn on_weekly(parts: Seq<PartText>, start: Seq<char>, interval: u32) -> Result<
    OnText,
    UndescribedReason,
> {
    if value_of(parts, "BYMONTHDAY"@) is Some || value_of(parts, "BYSETPOS"@) is Some {
        Err(UndescribedReason::UnknownPart)
    } else {
        let days = match value_of(parts, "BYDAY"@) {
            Some(value) => plain_days(value),
            None => match start_in(start) {
                Some(day) => Ok(seq![weekday_at(day.weekday())]),
                None => Err(UndescribedReason::Unreadable),
            },
        };
        match days {
            Err(reason) => Err(reason),
            Ok(days) => if interval > 1 && days.len() > 1 && (value_of(
                parts,
                "WKST"@,
            ) matches Some(w) && uppercase(trimmed(w, Blank::Unicode)) != "MO"@) {
                Err(UndescribedReason::WeekStart)
            } else if interval == 1 {
                Ok(OnText::Replaces(weekly_said(days)))
            } else {
                Ok(OnText::Beside(PhraseText { weekdays: days, ..bare_phrase("on.weekdays"@) }))
            },
        }
    }
}

/// A rule that asks for days of the month and for weekdays at once, such as
/// every Friday the 13th. The sentence has room for one of the two, and neither
/// is left out to make it.
pub open spec fn mixes_days(parts: Seq<PartText>) -> bool {
    value_of(parts, "BYMONTHDAY"@) is Some && value_of(parts, "BYDAY"@) is Some
}

/// A monthly rule: a position in a set, days of the month, one weekday of the
/// month, or the start's day of the month.
pub open spec fn on_monthly(parts: Seq<PartText>, start: Seq<char>) -> Result<
    OnText,
    UndescribedReason,
> {
    let said = match value_of(parts, "BYSETPOS"@) {
        Some(set_pos) => match value_of(parts, "BYDAY"@) {
            None => Err(UndescribedReason::SetPosition),
            Some(days) => set_position_said(days, set_pos),
        },
        None => match value_of(parts, "BYMONTHDAY"@) {
            Some(value) => month_days_said(value),
            None => match value_of(parts, "BYDAY"@) {
                Some(value) => nth_weekday_said(value),
                None => match start_in(start) {
                    None => Err(UndescribedReason::Unreadable),
                    Some(day) => Ok(
                        PhraseText {
                            count: Some(1),
                            month_days: seq![day.day as u8],
                            ..bare_phrase("on.monthDay"@)
                        },
                    ),
                },
            },
        },
    };
    match said {
        Err(reason) => Err(reason),
        Ok(phrase) => if mixes_days(parts) {
            Err(UndescribedReason::UnknownPart)
        } else {
            Ok(OnText::Beside(phrase))
        },
    }
}

/// The month a yearly rule falls in: its own, or the start's.
pub open spec fn yearly_month(parts: Seq<PartText>, start: Seq<char>) -> Result<
    u8,
    UndescribedReason,
> {
    match value_of(parts, "BYMONTH"@) {
        Some(value) => one_month(value),
        None => match start_in(start) {
            Some(day) => Ok(day.month as u8),
            None => Err(UndescribedReason::Unreadable),
        },
    }
}

/// A yearly rule: a position or a weekday within a named month, or a date. A
/// position without a month would count within the whole year.
pub open spec fn on_yearly(parts: Seq<PartText>, start: Seq<char>) -> Result<
    OnText,
    UndescribedReason,
> {
    let named_month = value_of(parts, "BYMONTH"@) is Some;
    match yearly_month(parts, start) {
        Err(reason) => Err(reason),
        Ok(month) => match (value_of(parts, "BYDAY"@), value_of(parts, "BYSETPOS"@)) {
            (Some(days), Some(set_pos)) => match set_position_said(days, set_pos) {
                Err(reason) => Err(reason),
                Ok(phrase) => if named_month && !mixes_days(parts) {
                    Ok(OnText::Beside(PhraseText { month: Some(month), ..phrase }))
                } else {
                    Err(UndescribedReason::UnknownPart)
                },
            },
            (Some(days), None) => match nth_weekday_said(days) {
                Err(reason) => Err(reason),
                Ok(phrase) => if named_month && !mixes_days(parts) {
                    Ok(
                        OnText::Beside(
                            PhraseText {
                                key: full_key("on.nthWeekdayInMonth"@),
                                month: Some(month),
                                ..phrase
                            },
                        ),
                    )
                } else {
                    Err(UndescribedReason::UnknownPart)
                },
            },
            (None, Some(_)) => Err(UndescribedReason::SetPosition),
            (None, None) => {
                let day = match value_of(parts, "BYMONTHDAY"@) {
                    Some(value) => one_month_day(value),
                    None => match start_in(start) {
                        Some(day) => Ok(day.day as u8),
                        None => Err(UndescribedReason::Unreadable),
                    },
                };
                match day {
                    Err(reason) => Err(reason),
                    Ok(day) => Ok(
                        OnText::Beside(
                            PhraseText {
                                month: Some(month),
                                month_days: seq![day],
                                ..bare_phrase("on.dateInYear"@)
                            },
                        ),
                    ),
                }
            },
        },
    }
}

pub open spec fn on_said(
    parts: Seq<PartText>,
    start: Seq<char>,
    freq: Freq,
    interval: u32,
) -> Result<OnText, UndescribedReason> {
    let by_clock = freq is Secondly || freq is Minutely || freq is Hourly;
    if value_of(parts, "BYMONTH"@) is Some && !(freq is Yearly) {
        Err(UndescribedReason::LimitedMonths)
    } else if by_clock {
        if value_of(parts, "BYDAY"@) is Some || value_of(parts, "BYMONTHDAY"@) is Some || value_of(
            parts,
            "BYSETPOS"@,
        ) is Some {
            Err(UndescribedReason::UnknownPart)
        } else {
            Ok(OnText::Nothing)
        }
    } else if freq is Daily {
        on_daily(parts, interval)
    } else if freq is Weekly {
        on_weekly(parts, start, interval)
    } else if freq is Monthly {
        on_monthly(parts, start)
    } else {
        on_yearly(parts, start)
    }
}

/// A part the sentence has room for.
pub open spec fn is_worded_part(key: Seq<char>) -> bool {
    key == "FREQ"@ || key == "INTERVAL"@ || key == "COUNT"@ || key == "UNTIL"@ || key == "BYDAY"@
        || key == "BYMONTHDAY"@ || key == "BYMONTH"@ || key == "BYSETPOS"@ || key == "WKST"@
}

/// The sentence the halves make.
pub open spec fn sentence(
    every: PhraseText,
    on: OnText,
    end: Option<PhraseText>,
) -> SummaryText {
    let (every, on) = match on {
        OnText::Replaces(phrase) => (phrase, None),
        OnText::Beside(phrase) => (every, Some(phrase)),
        OnText::Nothing => (every, None),
    };
    let key = if on is None && end is None {
        "sentence.every"@
    } else if on is Some && end is None {
        "sentence.everyOn"@
    } else if on is None {
        "sentence.everyEnd"@
    } else {
        "sentence.everyOnEnd"@
    };
    SummaryText::Described { key: full_key(key), every, on, end }
}

/// What a rule that is not empty says.
pub open spec fn rule_said(question: QuestionText) -> SummaryText {
    match rule_parts(question.rrule) {
        None => unsaid(UndescribedReason::Unreadable, None),
        Some((_, parts)) => {
            let freq = match value_of(parts, "FREQ"@) {
                Some(value) => freq_in(value),
                None => None,
            };
            match freq {
                None => unsaid(UndescribedReason::Unreadable, None),
                Some(freq) => {
                    let unit = unit_of(freq);
                    match interval_in(value_of(parts, "INTERVAL"@)) {
                        None => unsaid(UndescribedReason::Unreadable, Some(unit)),
                        Some(interval) => if exists|i: int|
                            0 <= i < parts.len() && !is_worded_part(
                                (#[trigger] parts[i]).key,
                            ) {
                            unsaid(UndescribedReason::UnknownPart, Some(unit))
                        } else {
                            match end_said(parts, question.last_day) {
                                Err(reason) => unsaid(reason, Some(unit)),
                                Ok(end) => match on_said(
                                    parts,
                                    question.start,
                                    freq,
                                    interval,
                                ) {
                                    Err(reason) => unsaid(reason, Some(unit)),
                                    Ok(on) => sentence(every_said(unit, interval), on, end),
                                },
                            }
                        },
                    }
                },
            }
        },
    }
}

pub open spec fn unsaid(reason: UndescribedReason, unit: Option<RepeatUnit>) -> SummaryText {
    SummaryText::Undescribed { reason, unit }
}

/// The rule in words, or why it cannot be.
pub open spec fn summary_of(question: QuestionText) -> SummaryText {
    if is_blank(question.rrule, Blank::Unicode) {
        SummaryText::NoRepeat
    } else {
        rule_said(question)
    }
}

// ---------------------------------------------------------------------------
// Saying it
// ---------------------------------------------------------------------------

/// What a result with a phrase holds.
pub open spec fn phrase_result(r: Result<Phrase, UndescribedReason>) -> Result<
    PhraseText,
    UndescribedReason,
> {
    match r {
        Ok(p) => Ok(p@),
        Err(reason) => Err(reason),
    }
}

impl Phrase {
    fn new(name: &str) -> (r: Phrase)
        ensures
            r@ == bare_phrase(name@),
    {
        let mut key: String = String::new();
        key.append("recurrenceSummary.");
        key.append(name);
        assert(key@ =~= full_key(name@));
        let p = Phrase {
            key,
            count: None,
            weekdays: Vec::new(),
            weekday: None,
            ordinal: None,
            month_days: Vec::new(),
            month: None,
            date: None,
            set: None,
        };
        assert(p@.weekdays =~= Seq::empty());
        assert(p@.month_days =~= Seq::empty());
        p
    }
}

impl RepeatUnit {
    fn key(self) -> (r: &'static str)
        ensures
            r@ == unit_name(self),
    {
        match self {
            RepeatUnit::Second => "second",
            RepeatUnit::Minute => "minute",
            RepeatUnit::Hour => "hour",
            RepeatUnit::Day => "day",
            RepeatUnit::Week => "week",
            RepeatUnit::Month => "month",
            RepeatUnit::Year => "year",
        }
    }
}

fn unit_for(freq: Freq) -> (r: RepeatUnit)
    ensures
        r == unit_of(freq),
{
    match freq {
        Freq::Secondly => RepeatUnit::Second,
        Freq::Minutely => RepeatUnit::Minute,
        Freq::Hourly => RepeatUnit::Hour,
        Freq::Daily => RepeatUnit::Day,
        Freq::Weekly => RepeatUnit::Week,
        Freq::Monthly => RepeatUnit::Month,
        Freq::Yearly => RepeatUnit::Year,
    }
}

fn every_phrase(unit: RepeatUnit, interval: u32) -> (r: Phrase)
    ensures
        r@ == every_said(unit, interval),
{
    let mut name: String = String::new();
    if interval == 1 {
        name.append("every.");
        name.append(unit.key());
        assert(name@ =~= "every."@ + unit_name(unit));
        Phrase::new(name.as_str())
    } else {
        name.append("interval.");
        name.append(unit.key());
        assert(name@ =~= "interval."@ + unit_name(unit));
        let mut phrase = Phrase::new(name.as_str());
        phrase.count = Some(interval);
        phrase
    }
}

fn end_phrase(parts: &[Part], last_day: Option<&str>) -> (r: Result<
    Option<Phrase>,
    UndescribedReason,
>)
    ensures
        end_said(part_texts(parts@), optional_str(last_day)) == match r {
            Ok(p) => Ok(optional_phrase(p)),
            Err(reason) => Err(reason),
        },
{
    let count = part(parts, "COUNT");
    let until = part(parts, "UNTIL");
    if count.is_some() && until.is_some() {
        return Err(UndescribedReason::CountAndUntil);
    }
    if let Some(count) = count {
        return match parse_unsigned(count, u32::MAX as u64) {
            None => Err(UndescribedReason::Unreadable),
            Some(n) => if n == 0 {
                Err(UndescribedReason::NoOccurrences)
            } else {
                let mut phrase = Phrase::new("end.count");
                phrase.count = Some(n as u32);
                Ok(Some(phrase))
            },
        };
    }
    if until.is_some() {
        if let Some(day) = last_day {
            proof {
                lemma_trimmed_empty(day@, Blank::Unicode);
            }
            let day = trim(day, Blank::Unicode);
            if !day.as_str().is_empty() {
                let mut phrase = Phrase::new("end.lastOn");
                phrase.date = Some(day);
                return Ok(Some(phrase));
            }
        }
        return Ok(Some(Phrase::new("end.bounded")));
    }
    Ok(None)
}

proof fn lemma_plain_refusals_stop(tokens: Seq<Seq<char>>, i: int)
    requires
        0 <= i <= tokens.len(),
        plain_refusals(tokens.take(i)) is Some,
    ensures
        plain_refusals(tokens) == plain_refusals(tokens.take(i)),
    decreases tokens.len() - i,
{
    if i < tokens.len() {
        assert(tokens.take(i + 1).drop_last() =~= tokens.take(i));
        lemma_plain_refusals_stop(tokens, i + 1);
    } else {
        assert(tokens.take(i) =~= tokens);
    }
}

/// Whether a token in the list is the plain weekday `day`.
fn lists(tokens: &[String], day: Weekday) -> (r: bool)
    ensures
        r == lists_day(texts(tokens@), day),
{
    let ghost all = texts(tokens@);
    let mut i: usize = 0;
    while i < tokens.len()
        invariant
            i <= tokens.len(),
            all == texts(tokens@),
            forall|j: int|
                0 <= j < i ==> weekday_token_in(#[trigger] all[j]) != Some((None::<i8>, day)),
        decreases tokens.len() - i,
    {
        if let Some((None, named)) = parse_weekday_token(tokens[i].as_str()) {
            if named == day {
                assert(weekday_token_in(all[i as int]) == Some((None::<i8>, day)));
                return true;
            }
        }
        i = i + 1;
    }
    false
}

fn plain_weekdays(value: &str) -> (r: Result<Vec<Weekday>, UndescribedReason>)
    ensures
        plain_days(value@) == match r {
            Ok(days) => Ok(days@),
            Err(reason) => Err(reason),
        },
{
    let tokens = split(value, ',');
    let ghost all = texts(tokens@);
    let mut i: usize = 0;
    while i < tokens.len()
        invariant
            i <= tokens.len(),
            all == texts(tokens@),
            all == split_on(value@, ','),
            plain_refusals(all.take(i as int)) is None,
        decreases tokens.len() - i,
    {
        assert(all.take(i as int + 1).drop_last() =~= all.take(i as int));
        assert(all.take(i as int + 1).last() == tokens@[i as int]@);
        let refusal = match parse_weekday_token(tokens[i].as_str()) {
            Some((None, _)) => None,
            Some((Some(_), _)) => Some(UndescribedReason::Ordinal),
            None => Some(UndescribedReason::Unreadable),
        };
        if let Some(reason) = refusal {
            proof {
                lemma_plain_refusals_stop(all, i as int + 1);
            }
            return Err(reason);
        }
        i = i + 1;
    }
    assert(all.take(i as int) =~= all);
    let mut days: Vec<Weekday> = Vec::new();
    let mut n: u32 = 0;
    while n < 7
        invariant
            n <= 7,
            all == texts(tokens@),
            days@ == days_in_order(all, n as int),
        decreases 7 - n,
    {
        let day = weekday_from_monday(n);
        if lists(tokens.as_slice(), day) {
            days.push(day);
        }
        n = n + 1;
    }
    Ok(days)
}

fn same_days(a: &[Weekday], b: &[Weekday]) -> (r: bool)
    ensures
        r == (a@ == b@),
{
    if a.len() != b.len() {
        return false;
    }
    let mut i: usize = 0;
    while i < a.len()
        invariant
            i <= a.len(),
            a@.len() == b@.len(),
            forall|j: int| 0 <= j < i ==> a@[j] == b@[j],
        decreases a.len() - i,
    {
        if a[i] != b[i] {
            return false;
        }
        i = i + 1;
    }
    assert(a@ =~= b@);
    true
}

fn is_workdays(days: &[Weekday]) -> (r: bool)
    ensures
        r == (days@ == workdays()),
{
    let named = [
        Weekday::Monday,
        Weekday::Tuesday,
        Weekday::Wednesday,
        Weekday::Thursday,
        Weekday::Friday,
    ];
    assert(named@ =~= workdays());
    same_days(days, named.as_slice())
}

fn is_weekend(days: &[Weekday]) -> (r: bool)
    ensures
        r == (days@ == weekend()),
{
    let named = [Weekday::Saturday, Weekday::Sunday];
    assert(named@ =~= weekend());
    same_days(days, named.as_slice())
}

fn is_whole_week(days: &[Weekday]) -> (r: bool)
    ensures
        r == (days@ == whole_week()),
{
    let named = [
        Weekday::Monday,
        Weekday::Tuesday,
        Weekday::Wednesday,
        Weekday::Thursday,
        Weekday::Friday,
        Weekday::Saturday,
        Weekday::Sunday,
    ];
    assert(named@ =~= whole_week());
    same_days(days, named.as_slice())
}

fn weekly_days_phrase(days: Vec<Weekday>) -> (r: Phrase)
    ensures
        r@ == weekly_said(days@),
{
    if is_workdays(days.as_slice()) {
        return Phrase::new("weekly.workdays");
    }
    let mut phrase = Phrase::new("weekly.onDays");
    phrase.weekdays = days;
    phrase
}

fn parse_month_day(token: &str) -> (r: Option<i64>)
    ensures
        match r {
            Some(n) => month_day_token(token@) == Some(n as int) && -31 <= n <= 31,
            None => month_day_token(token@) is None,
        },
{
    match parse_signed(trim(token, Blank::Unicode).as_str(), -31, 31) {
        Some(n) => if n == 0 {
            None
        } else {
            Some(n)
        },
        None => None,
    }
}

fn lists_in_month(tokens: &[String], day: i64) -> (r: bool)
    ensures
        r == lists_month_day(texts(tokens@), day as int),
{
    let ghost all = texts(tokens@);
    let mut i: usize = 0;
    while i < tokens.len()
        invariant
            i <= tokens.len(),
            all == texts(tokens@),
            forall|j: int| 0 <= j < i ==> month_day_token(#[trigger] all[j]) != Some(day as int),
        decreases tokens.len() - i,
    {
        if let Some(n) = parse_month_day(tokens[i].as_str()) {
            if n == day {
                assert(month_day_token(all[i as int]) == Some(day as int));
                return true;
            }
        }
        i = i + 1;
    }
    false
}

fn month_days_phrase(value: &str) -> (r: Result<Phrase, UndescribedReason>)
    ensures
        phrase_result(r) == month_days_said(value@),
{
    let tokens = split(value, ',');
    let ghost all = texts(tokens@);
    let mut all_last = true;
    let mut some_negative = false;
    let mut i: usize = 0;
    while i < tokens.len()
        invariant
            i <= tokens.len(),
            all == texts(tokens@),
            all == split_on(value@, ','),
            forall|j: int| 0 <= j < i ==> month_day_token(#[trigger] all[j]) is Some,
            all_last <==> forall|j: int|
                0 <= j < i ==> month_day_token(#[trigger] all[j]) == Some(-1int),
            some_negative <==> exists|j: int|
                0 <= j < i && (month_day_token(#[trigger] all[j])->0) < 0,
        decreases tokens.len() - i,
    {
        assert(all[i as int] == tokens@[i as int]@);
        match parse_month_day(tokens[i].as_str()) {
            None => {
                assert(month_day_token(all[i as int]) is None);
                return Err(UndescribedReason::Unreadable);
            },
            Some(n) => {
                if n != -1 {
                    all_last = false;
                    assert(month_day_token(all[i as int]) != Some(-1int));
                }
                if n < 0 {
                    some_negative = true;
                    assert((month_day_token(all[i as int])->0) < 0);
                }
            },
        }
        i = i + 1;
    }
    if all_last {
        return Ok(Phrase::new("on.lastDay"));
    }
    if some_negative {
        return Err(UndescribedReason::MixedMonthDays);
    }
    let mut days: Vec<u8> = Vec::new();
    let mut n: i64 = 0;
    while n < 31
        invariant
            0 <= n <= 31,
            all == texts(tokens@),
            days@.len() <= n,
            days@ == month_days_in_order(all, n as int),
        decreases 31 - n,
    {
        n = n + 1;
        if lists_in_month(tokens.as_slice(), n) {
            days.push(n as u8);
        }
    }
    let mut phrase = Phrase::new("on.monthDay");
    phrase.count = Some(days.len() as u32);
    phrase.month_days = days;
    Ok(phrase)
}

fn worded(position: i64) -> (r: bool)
    ensures
        r == is_worded(position as int),
{
    (1 <= position && position <= 5) || position == -1
}

fn nth_weekday_phrase(value: &str) -> (r: Result<Phrase, UndescribedReason>)
    ensures
        phrase_result(r) == nth_weekday_said(value@),
{
    let tokens = split(value, ',');
    assert(texts(tokens@)[0] == tokens@[0]@);
    if tokens.len() > 1 {
        return Err(UndescribedReason::SeveralPositions);
    }
    match parse_weekday_token(tokens[0].as_str()) {
        Some((Some(ordinal), day)) => {
            if !worded(ordinal as i64) {
                return Err(UndescribedReason::Ordinal);
            }
            let mut phrase = Phrase::new("on.nthWeekday");
            phrase.ordinal = Some(ordinal);
            phrase.weekday = Some(day);
            Ok(phrase)
        },
        Some((None, _)) => Err(UndescribedReason::UnknownPart),
        None => Err(UndescribedReason::Unreadable),
    }
}

fn set_position_phrase(days: &str, set_pos: &str) -> (r: Result<Phrase, UndescribedReason>)
    ensures
        phrase_result(r) == set_position_said(days@, set_pos@),
{
    let positions = split(set_pos, ',');
    assert(texts(positions@)[0] == positions@[0]@);
    if positions.len() > 1 {
        return Err(UndescribedReason::SeveralPositions);
    }
    let position: i64 = match parse_signed(
        trim(positions[0].as_str(), Blank::Unicode).as_str(),
        -128,
        127,
    ) {
        Some(n) => n,
        None => {
            return Err(UndescribedReason::Unreadable);
        },
    };
    if !worded(position) {
        return Err(UndescribedReason::Ordinal);
    }
    let days = match plain_weekdays(days) {
        Ok(days) => days,
        Err(reason) => {
            return Err(reason);
        },
    };
    if is_whole_week(days.as_slice()) {
        if position == -1 {
            return Ok(Phrase::new("on.lastDay"));
        }
        let mut phrase = Phrase::new("on.monthDay");
        phrase.count = Some(1);
        phrase.month_days.push(position as u8);
        assert(phrase@.month_days =~= seq![position as u8]);
        return Ok(phrase);
    }
    let set = if is_workdays(days.as_slice()) {
        DaySet::Weekday
    } else if is_weekend(days.as_slice()) {
        DaySet::WeekendDay
    } else {
        return Err(UndescribedReason::SetPosition);
    };
    let mut phrase = Phrase::new("on.nthOfSet");
    phrase.ordinal = Some(position as i8);
    phrase.set = Some(set);
    Ok(phrase)
}

fn single_month(value: &str) -> (r: Result<u8, UndescribedReason>)
    ensures
        r == one_month(value@),
{
    let months = split(value, ',');
    assert(texts(months@)[0] == months@[0]@);
    if months.len() > 1 {
        return Err(UndescribedReason::LimitedMonths);
    }
    match parse_unsigned(trim(months[0].as_str(), Blank::Unicode).as_str(), 255) {
        Some(n) => if 1 <= n && n <= 12 {
            Ok(n as u8)
        } else {
            Err(UndescribedReason::Unreadable)
        },
        None => Err(UndescribedReason::Unreadable),
    }
}

fn single_month_day(value: &str) -> (r: Result<u8, UndescribedReason>)
    ensures
        r == one_month_day(value@),
{
    let days = split(value, ',');
    assert(texts(days@)[0] == days@[0]@);
    if days.len() > 1 {
        return Err(UndescribedReason::MixedMonthDays);
    }
    match parse_signed(trim(days[0].as_str(), Blank::Unicode).as_str(), -128, 127) {
        Some(n) => if 1 <= n && n <= 31 {
            Ok(n as u8)
        } else {
            Err(UndescribedReason::MixedMonthDays)
        },
        None => Err(UndescribedReason::Unreadable),
    }
}

fn start_date(start: &str) -> (r: Option<Date>)
    ensures
        optional_day(r) == start_in(start@),
{
    parse_date(trim(start, Blank::Unicode).as_str(), "%Y-%m-%d")
}

enum OnPart {
    Replaces(Phrase),
    Beside(Phrase),
    Nothing,
}

spec fn on_text(on: OnPart) -> OnText {
    match on {
        OnPart::Replaces(p) => OnText::Replaces(p@),
        OnPart::Beside(p) => OnText::Beside(p@),
        OnPart::Nothing => OnText::Nothing,
    }
}

spec fn on_result(r: Result<OnPart, UndescribedReason>) -> Result<OnText, UndescribedReason> {
    match r {
        Ok(on) => Ok(on_text(on)),
        Err(reason) => Err(reason),
    }
}

fn on_daily_phrase(parts: &[Part], interval: u32) -> (r: Result<OnPart, UndescribedReason>)
    ensures
        on_result(r) == on_daily(part_texts(parts@), interval),
{
    if part(parts, "BYMONTHDAY").is_some() || part(parts, "BYSETPOS").is_some() {
        return Err(UndescribedReason::UnknownPart);
    }
    match part(parts, "BYDAY") {
        None => Ok(OnPart::Nothing),
        Some(value) => {
            if interval != 1 {
                return Err(UndescribedReason::UnknownPart);
            }
            match plain_weekdays(value) {
                Err(reason) => Err(reason),
                Ok(days) => Ok(OnPart::Replaces(weekly_days_phrase(days))),
            }
        },
    }
}

fn on_weekly_phrase(parts: &[Part], start: &str, interval: u32) -> (r: Result<
    OnPart,
    UndescribedReason,
>)
    ensures
        on_result(r) == on_weekly(part_texts(parts@), start@, interval),
{
    if part(parts, "BYMONTHDAY").is_some() || part(parts, "BYSETPOS").is_some() {
        return Err(UndescribedReason::UnknownPart);
    }
    let days = match part(parts, "BYDAY") {
        Some(value) => match plain_weekdays(value) {
            Ok(days) => days,
            Err(reason) => {
                return Err(reason);
            },
        },
        None => match start_date(start) {
            Some(day) => {
                let mut days: Vec<Weekday> = Vec::new();
                days.push(weekday_from_monday(days_from_monday(day)));
                assert(days@ =~= seq![weekday_at(day@.weekday())]);
                days
            },
            None => {
                return Err(UndescribedReason::Unreadable);
            },
        },
    };
    if interval > 1 && days.len() > 1 {
        if let Some(week_start) = part(parts, "WKST") {
            let letters = ascii_upper(trim(week_start, Blank::Unicode).as_str());
            if !same(letters.as_str(), "MO") {
                return Err(UndescribedReason::WeekStart);
            }
        }
    }
    if interval == 1 {
        Ok(OnPart::Replaces(weekly_days_phrase(days)))
    } else {
        let mut phrase = Phrase::new("on.weekdays");
        phrase.weekdays = days;
        Ok(OnPart::Beside(phrase))
    }
}

fn on_monthly_phrase(parts: &[Part], start: &str) -> (r: Result<OnPart, UndescribedReason>)
    ensures
        on_result(r) == on_monthly(part_texts(parts@), start@),
{
    let mixed = part(parts, "BYMONTHDAY").is_some() && part(parts, "BYDAY").is_some();
    let said = if let Some(set_pos) = part(parts, "BYSETPOS") {
        match part(parts, "BYDAY") {
            None => Err(UndescribedReason::SetPosition),
            Some(days) => set_position_phrase(days, set_pos),
        }
    } else if let Some(value) = part(parts, "BYMONTHDAY") {
        month_days_phrase(value)
    } else if let Some(value) = part(parts, "BYDAY") {
        nth_weekday_phrase(value)
    } else {
        match start_date(start) {
            None => Err(UndescribedReason::Unreadable),
            Some(day) => {
                let number: u8 = day.day() as u8;
                let mut phrase = Phrase::new("on.monthDay");
                phrase.count = Some(1);
                phrase.month_days.push(number);
                assert(phrase@.month_days =~= seq![day@.day as u8]);
                Ok(phrase)
            },
        }
    };
    match said {
        Err(reason) => Err(reason),
        Ok(phrase) => if mixed {
            Err(UndescribedReason::UnknownPart)
        } else {
            Ok(OnPart::Beside(phrase))
        },
    }
}

fn on_yearly_phrase(parts: &[Part], start: &str) -> (r: Result<OnPart, UndescribedReason>)
    ensures
        on_result(r) == on_yearly(part_texts(parts@), start@),
{
    let by_month = part(parts, "BYMONTH");
    let month: u8 = match by_month {
        Some(value) => match single_month(value) {
            Ok(month) => month,
            Err(reason) => {
                return Err(reason);
            },
        },
        None => match start_date(start) {
            Some(day) => day.month() as u8,
            None => {
                return Err(UndescribedReason::Unreadable);
            },
        },
    };
    let worded = by_month.is_some() && part(parts, "BYMONTHDAY").is_none();
    match (part(parts, "BYDAY"), part(parts, "BYSETPOS")) {
        (Some(days), Some(set_pos)) => match set_position_phrase(days, set_pos) {
            Err(reason) => Err(reason),
            Ok(phrase) => {
                if !worded {
                    return Err(UndescribedReason::UnknownPart);
                }
                let mut phrase = phrase;
                phrase.month = Some(month);
                Ok(OnPart::Beside(phrase))
            },
        },
        (Some(days), None) => match nth_weekday_phrase(days) {
            Err(reason) => Err(reason),
            Ok(phrase) => {
                if !worded {
                    return Err(UndescribedReason::UnknownPart);
                }
                let mut phrase = phrase;
                phrase.key = Phrase::new("on.nthWeekdayInMonth").key;
                phrase.month = Some(month);
                Ok(OnPart::Beside(phrase))
            },
        },
        (None, Some(_)) => Err(UndescribedReason::SetPosition),
        (None, None) => {
            let day: u8 = match part(parts, "BYMONTHDAY") {
                Some(value) => match single_month_day(value) {
                    Ok(day) => day,
                    Err(reason) => {
                        return Err(reason);
                    },
                },
                None => match start_date(start) {
                    Some(day) => day.day() as u8,
                    None => {
                        return Err(UndescribedReason::Unreadable);
                    },
                },
            };
            let mut phrase = Phrase::new("on.dateInYear");
            phrase.month = Some(month);
            phrase.month_days.push(day);
            assert(phrase@.month_days =~= seq![day]);
            Ok(OnPart::Beside(phrase))
        },
    }
}

fn on_phrase(parts: &[Part], start: &str, freq: Freq, interval: u32) -> (r: Result<
    OnPart,
    UndescribedReason,
>)
    ensures
        on_result(r) == on_said(part_texts(parts@), start@, freq, interval),
{
    let yearly = match freq {
        Freq::Yearly => true,
        _ => false,
    };
    if part(parts, "BYMONTH").is_some() && !yearly {
        return Err(UndescribedReason::LimitedMonths);
    }
    match freq {
        Freq::Secondly | Freq::Minutely | Freq::Hourly => {
            if part(parts, "BYDAY").is_some() || part(parts, "BYMONTHDAY").is_some() || part(
                parts,
                "BYSETPOS",
            ).is_some() {
                Err(UndescribedReason::UnknownPart)
            } else {
                Ok(OnPart::Nothing)
            }
        },
        Freq::Daily => on_daily_phrase(parts, interval),
        Freq::Weekly => on_weekly_phrase(parts, start, interval),
        Freq::Monthly => on_monthly_phrase(parts, start),
        Freq::Yearly => on_yearly_phrase(parts, start),
    }
}

fn worded_part(key: &str) -> (r: bool)
    ensures
        r == is_worded_part(key@),
{
    same(key, "FREQ") || same(key, "INTERVAL") || same(key, "COUNT") || same(key, "UNTIL") || same(
        key,
        "BYDAY",
    ) || same(key, "BYMONTHDAY") || same(key, "BYMONTH") || same(key, "BYSETPOS") || same(
        key,
        "WKST",
    )
}

fn all_worded(parts: &[Part]) -> (r: bool)
    ensures
        r <==> !exists|i: int|
            0 <= i < part_texts(parts@).len() && !is_worded_part(
                (#[trigger] part_texts(parts@)[i]).key,
            ),
{
    let ghost all = part_texts(parts@);
    let mut i: usize = 0;
    while i < parts.len()
        invariant
            i <= parts.len(),
            all == part_texts(parts@),
            forall|j: int| 0 <= j < i ==> is_worded_part((#[trigger] all[j]).key),
        decreases parts.len() - i,
    {
        if !worded_part(parts[i].key.as_str()) {
            assert(!is_worded_part(all[i as int].key));
            return false;
        }
        i = i + 1;
    }
    true
}

fn describe(question: &RecurrenceSummaryQuestion) -> (r: RecurrenceSummary)
    ensures
        r@ == rule_said(question@),
{
    let parts = match parse_parts(question.rrule.as_str()) {
        Ok((_, parts)) => parts,
        Err(_) => {
            return RecurrenceSummary::Undescribed {
                reason: UndescribedReason::Unreadable,
                unit: None,
            };
        },
    };
    let parts = parts.as_slice();
    let freq = match part(parts, "FREQ") {
        Some(value) => parse_freq(value),
        None => None,
    };
    let freq = match freq {
        Some(freq) => freq,
        None => {
            return RecurrenceSummary::Undescribed {
                reason: UndescribedReason::Unreadable,
                unit: None,
            };
        },
    };
    let unit = unit_for(freq);
    let interval: u32 = match parse_interval(part(parts, "INTERVAL")) {
        Some(n) => n,
        None => {
            return RecurrenceSummary::Undescribed {
                reason: UndescribedReason::Unreadable,
                unit: Some(unit),
            };
        },
    };
    if !all_worded(parts) {
        return RecurrenceSummary::Undescribed {
            reason: UndescribedReason::UnknownPart,
            unit: Some(unit),
        };
    }
    let last_day = match &question.last_day {
        Some(day) => Some(day.as_str()),
        None => None,
    };
    let end = match end_phrase(parts, last_day) {
        Ok(end) => end,
        Err(reason) => {
            return RecurrenceSummary::Undescribed { reason, unit: Some(unit) };
        },
    };
    let on = match on_phrase(parts, question.start.as_str(), freq, interval) {
        Ok(on) => on,
        Err(reason) => {
            return RecurrenceSummary::Undescribed { reason, unit: Some(unit) };
        },
    };
    let (every, on) = match on {
        OnPart::Replaces(phrase) => (phrase, None),
        OnPart::Beside(phrase) => (every_phrase(unit, interval), Some(phrase)),
        OnPart::Nothing => (every_phrase(unit, interval), None),
    };
    let name = if on.is_none() && end.is_none() {
        "sentence.every"
    } else if on.is_some() && end.is_none() {
        "sentence.everyOn"
    } else if on.is_none() {
        "sentence.everyEnd"
    } else {
        "sentence.everyOnEnd"
    };
    RecurrenceSummary::Described { key: Phrase::new(name).key, every, on, end }
}

/// The rule in words, or why it cannot be.
pub fn describe_recurrence(question: &RecurrenceSummaryQuestion) -> (r: RecurrenceSummary)
    ensures
        r@ == summary_of(question@),
{
    proof {
        lemma_trimmed_empty(question@.rrule, Blank::Unicode);
    }
    let rule = trim(question.rrule.as_str(), Blank::Unicode);
    if rule.as_str().is_empty() {
        return RecurrenceSummary::NoRepeat;
    }
    describe(question)
}

// ---------------------------------------------------------------------------
// Every key is listed
// ---------------------------------------------------------------------------

/// The key stands in [`SUMMARY_KEYS`].
pub open spec fn is_listed(key: Seq<char>) -> bool {
    exists|i: int| 0 <= i < SUMMARY_KEYS@.len() && (#[trigger] SUMMARY_KEYS@[i])@ == key
}

proof fn lemma_sentence_keys()
    ensures
        is_listed(full_key("sentence.every"@)),
        is_listed(full_key("sentence.everyOn"@)),
        is_listed(full_key("sentence.everyEnd"@)),
        is_listed(full_key("sentence.everyOnEnd"@)),
{
    reveal_strlit("recurrenceSummary.");
    reveal_strlit("sentence.every");
    reveal_strlit("sentence.everyEnd");
    reveal_strlit("sentence.everyOn");
    reveal_strlit("sentence.everyOnEnd");
    reveal_strlit("recurrenceSummary.sentence.every");
    assert(SUMMARY_KEYS@[0]@ =~= full_key("sentence.every"@));
    reveal_strlit("recurrenceSummary.sentence.everyOn");
    assert(SUMMARY_KEYS@[1]@ =~= full_key("sentence.everyOn"@));
    reveal_strlit("recurrenceSummary.sentence.everyEnd");
    assert(SUMMARY_KEYS@[2]@ =~= full_key("sentence.everyEnd"@));
    reveal_strlit("recurrenceSummary.sentence.everyOnEnd");
    assert(SUMMARY_KEYS@[3]@ =~= full_key("sentence.everyOnEnd"@));
}

proof fn lemma_every_keys()
    ensures
        is_listed(full_key("every."@ + "second"@)),
        is_listed(full_key("every."@ + "minute"@)),
        is_listed(full_key("every."@ + "hour"@)),
        is_listed(full_key("every."@ + "day"@)),
        is_listed(full_key("every."@ + "month"@)),
        is_listed(full_key("every."@ + "year"@)),
{
    reveal_strlit("recurrenceSummary.");
    reveal_strlit("day");
    reveal_strlit("every.");
    reveal_strlit("hour");
    reveal_strlit("minute");
    reveal_strlit("month");
    reveal_strlit("second");
    reveal_strlit("year");
    reveal_strlit("recurrenceSummary.every.second");
    assert(SUMMARY_KEYS@[4]@ =~= full_key("every."@ + "second"@));
    reveal_strlit("recurrenceSummary.every.minute");
    assert(SUMMARY_KEYS@[5]@ =~= full_key("every."@ + "minute"@));
    reveal_strlit("recurrenceSummary.every.hour");
    assert(SUMMARY_KEYS@[6]@ =~= full_key("every."@ + "hour"@));
    reveal_strlit("recurrenceSummary.every.day");
    assert(SUMMARY_KEYS@[7]@ =~= full_key("every."@ + "day"@));
    reveal_strlit("recurrenceSummary.every.month");
    assert(SUMMARY_KEYS@[8]@ =~= full_key("every."@ + "month"@));
    reveal_strlit("recurrenceSummary.every.year");
    assert(SUMMARY_KEYS@[9]@ =~= full_key("every."@ + "year"@));
}

proof fn lemma_interval_keys()
    ensures
        is_listed(full_key("interval."@ + "second"@)),
        is_listed(full_key("interval."@ + "minute"@)),
        is_listed(full_key("interval."@ + "hour"@)),
        is_listed(full_key("interval."@ + "day"@)),
        is_listed(full_key("interval."@ + "week"@)),
        is_listed(full_key("interval."@ + "month"@)),
        is_listed(full_key("interval."@ + "year"@)),
{
    reveal_strlit("recurrenceSummary.");
    reveal_strlit("day");
    reveal_strlit("hour");
    reveal_strlit("interval.");
    reveal_strlit("minute");
    reveal_strlit("month");
    reveal_strlit("second");
    reveal_strlit("week");
    reveal_strlit("year");
    reveal_strlit("recurrenceSummary.interval.second");
    assert(SUMMARY_KEYS@[10]@ =~= full_key("interval."@ + "second"@));
    reveal_strlit("recurrenceSummary.interval.minute");
    assert(SUMMARY_KEYS@[11]@ =~= full_key("interval."@ + "minute"@));
    reveal_strlit("recurrenceSummary.interval.hour");
    assert(SUMMARY_KEYS@[12]@ =~= full_key("interval."@ + "hour"@));
    reveal_strlit("recurrenceSummary.interval.day");
    assert(SUMMARY_KEYS@[13]@ =~= full_key("interval."@ + "day"@));
    reveal_strlit("recurrenceSummary.interval.week");
    assert(SUMMARY_KEYS@[14]@ =~= full_key("interval."@ + "week"@));
    reveal_strlit("recurrenceSummary.interval.month");
    assert(SUMMARY_KEYS@[15]@ =~= full_key("interval."@ + "month"@));
    reveal_strlit("recurrenceSummary.interval.year");
    assert(SUMMARY_KEYS@[16]@ =~= full_key("interval."@ + "year"@));
}

proof fn lemma_on_keys()
    ensures
        is_listed(full_key("weekly.onDays"@)),
        is_listed(full_key("weekly.workdays"@)),
        is_listed(full_key("on.weekdays"@)),
        is_listed(full_key("on.monthDay"@)),
        is_listed(full_key("on.lastDay"@)),
        is_listed(full_key("on.nthWeekday"@)),
        is_listed(full_key("on.nthOfSet"@)),
        is_listed(full_key("on.dateInYear"@)),
        is_listed(full_key("on.nthWeekdayInMonth"@)),
{
    reveal_strlit("recurrenceSummary.");
    reveal_strlit("on.dateInYear");
    reveal_strlit("on.lastDay");
    reveal_strlit("on.monthDay");
    reveal_strlit("on.nthOfSet");
    reveal_strlit("on.nthWeekday");
    reveal_strlit("on.nthWeekdayInMonth");
    reveal_strlit("on.weekdays");
    reveal_strlit("weekly.onDays");
    reveal_strlit("weekly.workdays");
    reveal_strlit("recurrenceSummary.weekly.onDays");
    assert(SUMMARY_KEYS@[17]@ =~= full_key("weekly.onDays"@));
    reveal_strlit("recurrenceSummary.weekly.workdays");
    assert(SUMMARY_KEYS@[18]@ =~= full_key("weekly.workdays"@));
    reveal_strlit("recurrenceSummary.on.weekdays");
    assert(SUMMARY_KEYS@[19]@ =~= full_key("on.weekdays"@));
    reveal_strlit("recurrenceSummary.on.monthDay");
    assert(SUMMARY_KEYS@[20]@ =~= full_key("on.monthDay"@));
    reveal_strlit("recurrenceSummary.on.lastDay");
    assert(SUMMARY_KEYS@[21]@ =~= full_key("on.lastDay"@));
    reveal_strlit("recurrenceSummary.on.nthWeekday");
    assert(SUMMARY_KEYS@[22]@ =~= full_key("on.nthWeekday"@));
    reveal_strlit("recurrenceSummary.on.nthOfSet");
    assert(SUMMARY_KEYS@[23]@ =~= full_key("on.nthOfSet"@));
    reveal_strlit("recurrenceSummary.on.dateInYear");
    assert(SUMMARY_KEYS@[24]@ =~= full_key("on.dateInYear"@));
    reveal_strlit("recurrenceSummary.on.nthWeekdayInMonth");
    assert(SUMMARY_KEYS@[25]@ =~= full_key("on.nthWeekdayInMonth"@));
}

proof fn lemma_end_keys()
    ensures
        is_listed(full_key("end.count"@)),
        is_listed(full_key("end.lastOn"@)),
        is_listed(full_key("end.bounded"@)),
{
    reveal_strlit("recurrenceSummary.");
    reveal_strlit("end.bounded");
    reveal_strlit("end.count");
    reveal_strlit("end.lastOn");
    reveal_strlit("recurrenceSummary.end.count");
    assert(SUMMARY_KEYS@[26]@ =~= full_key("end.count"@));
    reveal_strlit("recurrenceSummary.end.lastOn");
    assert(SUMMARY_KEYS@[27]@ =~= full_key("end.lastOn"@));
    reveal_strlit("recurrenceSummary.end.bounded");
    assert(SUMMARY_KEYS@[28]@ =~= full_key("end.bounded"@));
}

/// Every key a sentence is made of is listed.
pub proof fn every_key_is_listed(question: QuestionText)
    ensures
        summary_of(question) matches SummaryText::Described { key, every, on, end } ==> {
            &&& is_listed(key)
            &&& is_listed(every.key)
            &&& on matches Some(p) ==> is_listed(p.key)
            &&& end matches Some(p) ==> is_listed(p.key)
        },
{
    lemma_sentence_keys();
    lemma_every_keys();
    lemma_interval_keys();
    lemma_on_keys();
    lemma_end_keys();
}

} // verus!
