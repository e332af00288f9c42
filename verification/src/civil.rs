//! Days, times of day and instants.
//!
//! A day is a date of the proleptic Gregorian calendar in the range the
//! `chrono` crate supports, and date arithmetic is `chrono`'s. What each call
//! does is stated over [`Ymd`], a day as three integers, and over its number in
//! the count of days that calls January 1 of year 1 day 1.

use chrono::Datelike;
use vstd::prelude::*;

use crate::text::{
    all_digits, decimal, digits_value, is_digit, lemma_decimal_reads_back, lemma_leading_zeros,
};

verus! {

/// The first year a day can lie in.
pub const FIRST_YEAR: i32 = -262143;

/// The last year a day can lie in.
pub const LAST_YEAR: i32 = 262142;

/// A day as three integers: what a [`Date`] means.
pub struct Ymd {
    pub year: int,
    pub month: int,
    pub day: int,
}

pub open spec fn is_leap_year(year: int) -> bool {
    year % 4 == 0 && (year % 100 != 0 || year % 400 == 0)
}

pub open spec fn days_in_month(year: int, month: int) -> int {
    if month == 2 {
        if is_leap_year(year) {
            29
        } else {
            28
        }
    } else if month == 4 || month == 6 || month == 9 || month == 11 {
        30
    } else {
        31
    }
}

/// How many days of a year lie before the first of `month`.
pub open spec fn days_before_month(year: int, month: int) -> int
    decreases month,
{
    if month <= 1 {
        0
    } else {
        days_before_month(year, month - 1) + days_in_month(year, month - 1)
    }
}

/// How many days lie between January 1 of year 1 and January 1 of `year`.
pub open spec fn days_before_year(year: int) -> int {
    365 * (year - 1) + (year - 1) / 4 - (year - 1) / 100 + (year - 1) / 400
}

impl Ymd {
    /// The day exists and lies in the supported range.
    pub open spec fn valid(self) -> bool {
        &&& FIRST_YEAR <= self.year <= LAST_YEAR
        &&& 1 <= self.month <= 12
        &&& 1 <= self.day <= days_in_month(self.year, self.month)
    }

    /// The day's number, January 1 of year 1 being day 1.
    pub open spec fn number(self) -> int {
        days_before_year(self.year) + days_before_month(self.year, self.month) + self.day
    }

    /// The day's place in its week, Monday being 0.
    pub open spec fn weekday(self) -> int {
        (self.number() - 1) % 7
    }

    /// The day lies before `other`.
    pub open spec fn before(self, other: Ymd) -> bool {
        ||| self.year < other.year
        ||| self.year == other.year && self.month < other.month
        ||| self.year == other.year && self.month == other.month && self.day < other.day
    }

    /// `months` months later: the same day of the month, or the last one where
    /// that month is shorter.
    pub open spec fn plus_months(self, months: int) -> Ymd {
        let total = self.year * 12 + self.month - 1 + months;
        let year = total / 12;
        let month = total % 12 + 1;
        let last = days_in_month(year, month);
        Ymd { year, month, day: if self.day > last { last } else { self.day } }
    }
}

/// The number of the first supported day.
pub open spec fn first_day_number() -> int {
    (Ymd { year: FIRST_YEAR as int, month: 1, day: 1 }).number()
}

/// The number of the last supported day.
pub open spec fn last_day_number() -> int {
    (Ymd { year: LAST_YEAR as int, month: 12, day: 31 }).number()
}

/// A day of the proleptic Gregorian calendar. Every value is a day that exists.
#[derive(Clone, Copy, PartialEq, Eq, Structural, Debug, Hash)]
pub struct Date {
    pub(crate) year: i32,
    pub(crate) month: u32,
    pub(crate) day: u32,
}

impl View for Date {
    type V = Ymd;

    closed spec fn view(&self) -> Ymd {
        Ymd { year: self.year as int, month: self.month as int, day: self.day as int }
    }
}

/// What an optional day means.
pub open spec fn optional_day(day: Option<Date>) -> Option<Ymd> {
    match day {
        Some(d) => Some(d@),
        None => None,
    }
}

pub(crate) fn leap_year(year: i32) -> (r: bool)
    requires
        FIRST_YEAR <= year <= LAST_YEAR,
    ensures
        r == is_leap_year(year as int),
{
    let y: i64 = year as i64;
    euclid(y, 4) == 0 && (euclid(y, 100) != 0 || euclid(y, 400) == 0)
}

/// How many days `month` of `year` has.
pub(crate) fn month_length(year: i32, month: u32) -> (r: u32)
    requires
        FIRST_YEAR <= year <= LAST_YEAR,
    ensures
        r == days_in_month(year as int, month as int),
        28 <= r <= 31,
{
    if month == 2 {
        if leap_year(year) {
            29
        } else {
            28
        }
    } else if month == 4 || month == 6 || month == 9 || month == 11 {
        30
    } else {
        31
    }
}

impl Date {
    #[verifier::type_invariant]
    pub(crate) closed spec fn is_a_day(self) -> bool {
        self@.valid()
    }

    /// The day with these three numbers, when there is one.
    pub fn from_ymd_opt(year: i32, month: u32, day: u32) -> (r: Option<Date>)
        ensures
            match r {
                Some(d) => d@ == (Ymd { year: year as int, month: month as int, day: day as int })
                    && d@.valid(),
                None => !(Ymd {
                    year: year as int,
                    month: month as int,
                    day: day as int,
                }).valid(),
            },
    {
        if year < FIRST_YEAR || year > LAST_YEAR || month < 1 || month > 12 {
            return None;
        }
        if day < 1 || day > month_length(year, month) {
            return None;
        }
        Some(Date { year, month, day })
    }

    pub fn year(&self) -> (r: i32)
        ensures
            r == self@.year,
            self@.valid(),
    {
        proof {
            use_type_invariant(self);
        }
        self.year
    }

    pub fn month(&self) -> (r: u32)
        ensures
            r == self@.month,
            self@.valid(),
    {
        proof {
            use_type_invariant(self);
        }
        self.month
    }

    pub fn day(&self) -> (r: u32)
        ensures
            r == self@.day,
            self@.valid(),
    {
        proof {
            use_type_invariant(self);
        }
        self.day
    }

    /// Whether this is the same day as `other`.
    pub fn same_day(&self, other: &Date) -> (r: bool)
        ensures
            r == (self@ == other@),
            r == (*self == *other),
    {
        self.year == other.year && self.month == other.month && self.day == other.day
    }

    /// Whether this day lies before `other`.
    pub fn before(&self, other: &Date) -> (r: bool)
        ensures
            r == self@.before(other@),
    {
        if self.year != other.year {
            return self.year < other.year;
        }
        if self.month != other.month {
            return self.month < other.month;
        }
        self.day < other.day
    }
}

/// The day `days` days after `date`, or before it where `days` is negative.
/// `NaiveDate::checked_add_signed` with a `TimeDelta` of that many whole days:
/// it counts in the calendar's days and answers nothing exactly where the
/// result would leave the supported range.
#[verifier::external_body]
pub(crate) fn plus_days(date: Date, days: i64) -> (r: Option<Date>)
    ensures
        match r {
            Some(d) => d@.valid() && d@.number() == date@.number() + days,
            None => !(first_day_number() <= date@.number() + days <= last_day_number()),
        },
{
    let from = chrono::NaiveDate::from_ymd_opt(date.year, date.month, date.day)?;
    let to = from.checked_add_signed(chrono::TimeDelta::try_days(days)?)?;
    Some(Date { year: to.year(), month: to.month(), day: to.day() })
}

/// The existing day with this number.
pub open spec fn day_at(number: int) -> Ymd {
    choose|d: Ymd| d.valid() && #[trigger] d.number() == number
}

/// A day has the number it is found by.
pub proof fn lemma_day_at(day: Ymd)
    requires
        day.valid(),
    ensures
        day_at(day.number()) == day,
{
    let found = day_at(day.number());
    assert(found.valid() && found.number() == day.number());
    day_numbers_follow_the_calendar(found, day);
}

/// The day `days` days after `day`, where there is one.
pub open spec fn moved_day(day: Ymd, days: int) -> Option<Ymd> {
    if first_day_number() <= day.number() + days <= last_day_number() {
        Some(day_at(day.number() + days))
    } else {
        None
    }
}

/// The day `days` days after `date`, where there is one.
pub(crate) fn add_days(date: Date, days: i64) -> (r: Option<Date>)
    ensures
        optional_day(r) == moved_day(date@, days as int),
        r matches Some(d) ==> d@.valid() && d@.number() == date@.number() + days,
{
    let r = plus_days(date, days);
    proof {
        if let Some(d) = r {
            lemma_day_at(d@);
            lemma_number_bounds(d@);
            lemma_day_bounds();
        }
    }
    r
}

/// The day `months` months after `date`, `NaiveDate::checked_add_months`: the
/// same day of the month or the month's last one where it is shorter, and
/// nothing exactly where that leaves the supported range.
#[verifier::external_body]
pub(crate) fn plus_months(date: Date, months: u32) -> (r: Option<Date>)
    ensures
        match r {
            Some(d) => d@.valid() && d@ == date@.plus_months(months as int),
            None => !date@.plus_months(months as int).valid(),
        },
{
    let from = chrono::NaiveDate::from_ymd_opt(date.year, date.month, date.day)?;
    let to = from.checked_add_months(chrono::Months::new(months))?;
    Some(Date { year: to.year(), month: to.month(), day: to.day() })
}

/// The place of a day in its week, Monday being 0: `Datelike::weekday` with
/// `Weekday::num_days_from_monday`.
#[verifier::external_body]
pub(crate) fn days_from_monday(date: Date) -> (r: u32)
    ensures
        r == date@.weekday(),
        r < 7,
{
    chrono::NaiveDate::from_ymd_opt(date.year, date.month, date.day).unwrap().weekday().num_days_from_monday()
}

/// How many days `to` lies after `from`: `NaiveDate::signed_duration_since`
/// counted in whole days.
#[verifier::external_body]
pub(crate) fn days_between(from: Date, to: Date) -> (r: i64)
    ensures
        r == to@.number() - from@.number(),
{
    let a = chrono::NaiveDate::from_ymd_opt(from.year, from.month, from.day).unwrap();
    let b = chrono::NaiveDate::from_ymd_opt(to.year, to.month, to.day).unwrap();
    b.signed_duration_since(a).num_days()
}

/// The months before a month fill at least the days they are counted with.
proof fn lemma_month_order(year: int, a: int, b: int)
    requires
        1 <= a < b <= 13,
    ensures
        days_before_month(year, a) + days_in_month(year, a) <= days_before_month(year, b),
    decreases b - a,
{
    if a + 1 < b {
        lemma_month_order(year, a, b - 1);
    }
}

/// A year has as many days as lie before the month after its last.
proof fn lemma_year_length(year: int)
    ensures
        days_before_year(year + 1) == days_before_year(year) + days_before_month(year, 13),
        days_before_month(year, 13) == if is_leap_year(year) {
            366int
        } else {
            365int
        },
{
    reveal_with_fuel(days_before_month, 14);
}

proof fn lemma_year_order(a: int, b: int)
    requires
        a < b,
    ensures
        days_before_year(a) + days_before_month(a, 13) <= days_before_year(b),
    decreases b - a,
{
    lemma_year_length(a);
    if a + 1 < b {
        lemma_year_order(a, b - 1);
        lemma_year_length(b - 1);
    }
}

/// Days are numbered in their order: of two existing days the earlier one has
/// the smaller number.
pub proof fn day_numbers_follow_the_calendar(a: Ymd, b: Ymd)
    requires
        a.valid(),
        b.valid(),
    ensures
        a.before(b) <==> a.number() < b.number(),
        a == b <==> a.number() == b.number(),
{
    lemma_within_year(a);
    lemma_within_year(b);
    if a.year < b.year {
        lemma_year_order(a.year, b.year);
    } else if b.year < a.year {
        lemma_year_order(b.year, a.year);
    } else if a.month < b.month {
        lemma_month_order(a.year, a.month, b.month);
    } else if b.month < a.month {
        lemma_month_order(a.year, b.month, a.month);
    }
}

/// An existing day lies inside its year.
proof fn lemma_within_year(a: Ymd)
    requires
        a.valid(),
    ensures
        days_before_year(a.year) < a.number() <= days_before_year(a.year) + days_before_month(
            a.year,
            13,
        ),
{
    lemma_month_order(a.year, a.month, 13);
    lemma_month_floor(a.year, a.month);
}

proof fn lemma_month_floor(year: int, month: int)
    ensures
        days_before_month(year, month) >= 0,
    decreases month,
{
    if month > 1 {
        lemma_month_floor(year, month - 1);
    }
}

/// The day after a day.
spec fn next_day(day: Ymd) -> Ymd {
    if day.day < days_in_month(day.year, day.month) {
        Ymd { day: day.day + 1, ..day }
    } else if day.month < 12 {
        Ymd { month: day.month + 1, day: 1, ..day }
    } else {
        Ymd { year: day.year + 1, month: 1, day: 1 }
    }
}

/// Every number in range is the number of a day that exists.
pub proof fn every_number_has_a_day(number: int)
    requires
        first_day_number() <= number <= last_day_number(),
    ensures
        day_at(number).valid(),
        day_at(number).number() == number,
    decreases number - first_day_number(),
{
    let first = Ymd { year: FIRST_YEAR as int, month: 1, day: 1 };
    if number == first_day_number() {
        assert(first.valid() && first.number() == number);
    } else {
        every_number_has_a_day(number - 1);
        let before = day_at(number - 1);
        let day = next_day(before);
        lemma_year_length(before.year);
        let last = Ymd { year: LAST_YEAR as int, month: 12, day: 31 };
        day_numbers_follow_the_calendar(before, last);
        assert(day.valid() && day.number() == number);
    }
}

// ---------------------------------------------------------------------------
// Days as text
// ---------------------------------------------------------------------------

/// What `NaiveDate::parse_from_str` reads in a text, by a `strftime` format.
pub uninterp spec fn read_date(text: Seq<char>, format: Seq<char>) -> Option<Ymd>;

/// The day eight digits name, `YYYYMMDD`, when there is such a day.
pub open spec fn compact_date(text: Seq<char>) -> Option<Ymd> {
    let day = Ymd {
        year: digits_value(text.subrange(0, 4)) as int,
        month: digits_value(text.subrange(4, 6)) as int,
        day: digits_value(text.subrange(6, 8)) as int,
    };
    if day.valid() {
        Some(day)
    } else {
        None
    }
}

/// Reads a day: `NaiveDate::parse_from_str`. What it reads is named
/// [`read_date`]; of eight digits read as `%Y%m%d` it reads the day they name,
/// and nothing where there is no such day.
#[verifier::external_body]
pub(crate) fn parse_date(text: &str, format: &str) -> (r: Option<Date>)
    ensures
        optional_day(r) == read_date(text@, format@),
        text@.len() == 8 && all_digits(text@) && format@ == "%Y%m%d"@ ==> optional_day(r)
            == compact_date(text@),
{
    let d = chrono::NaiveDate::parse_from_str(text, format).ok()?;
    Some(Date { year: d.year(), month: d.month(), day: d.day() })
}

/// A number's digits, with zeros before them up to `width`.
pub open spec fn zero_padded(n: nat, width: nat) -> Seq<char> {
    let digits = decimal(n);
    if digits.len() >= width {
        digits
    } else {
        Seq::new((width - digits.len()) as nat, |i: int| '0') + digits
    }
}

/// A year in four digits; one that needs more, or lies before year 0, carries
/// its sign.
pub open spec fn year_text(year: int) -> Seq<char> {
    if year < 0 {
        seq!['-'] + zero_padded((-year) as nat, 4)
    } else if year <= 9999 {
        zero_padded(year as nat, 4)
    } else {
        seq!['+'] + zero_padded(year as nat, 4)
    }
}

/// A day as `YYYYMMDD`.
pub open spec fn compact_text(day: Ymd) -> Seq<char> {
    year_text(day.year) + zero_padded(day.month as nat, 2) + zero_padded(day.day as nat, 2)
}

/// A day as `YYYY-MM-DD`.
pub open spec fn iso_text(day: Ymd) -> Seq<char> {
    year_text(day.year) + seq!['-'] + zero_padded(day.month as nat, 2) + seq!['-'] + zero_padded(
        day.day as nat,
        2,
    )
}

/// A padded number keeps its value, in digits, and has the width asked for
/// where it fits.
proof fn lemma_zero_padded(n: nat, width: nat)
    requires
        decimal(n).len() <= width,
    ensures
        zero_padded(n, width).len() == width,
        all_digits(zero_padded(n, width)),
        digits_value(zero_padded(n, width)) == n,
{
    let digits = decimal(n);
    lemma_decimal_reads_back(n);
    if digits.len() < width {
        let zeros = Seq::new((width - digits.len()) as nat, |i: int| '0');
        lemma_leading_zeros(zeros, digits);
        let p = zeros + digits;
        assert forall|i: int| 0 <= i < p.len() implies is_digit(#[trigger] p[i]) by {
            if i >= zeros.len() {
                assert(p[i] == digits[i - zeros.len()]);
            }
        }
    }
}

/// A day whose year has four digits is written in eight digits that name it.
pub proof fn lemma_compact_reads_back(day: Ymd)
    requires
        day.valid(),
        0 <= day.year <= 9999,
    ensures
        compact_text(day).len() == 8,
        all_digits(compact_text(day)),
        compact_date(compact_text(day)) == Some(day),
{
    reveal_with_fuel(decimal, 4);
    let y = zero_padded(day.year as nat, 4);
    let m = zero_padded(day.month as nat, 2);
    let d = zero_padded(day.day as nat, 2);
    lemma_zero_padded(day.year as nat, 4);
    lemma_zero_padded(day.month as nat, 2);
    lemma_zero_padded(day.day as nat, 2);
    let t = compact_text(day);
    assert(t.subrange(0, 4) =~= y);
    assert(t.subrange(4, 6) =~= m);
    assert(t.subrange(6, 8) =~= d);
    assert forall|i: int| 0 <= i < t.len() implies is_digit(#[trigger] t[i]) by {
        if i < 4 {
            assert(t[i] == y[i]);
        } else if i < 6 {
            assert(t[i] == m[i - 4]);
        } else {
            assert(t[i] == d[i - 6]);
        }
    }
}

/// What `NaiveDate`'s `FromStr` reads in a text: a year, a month and a day with
/// `-` between them.
pub uninterp spec fn read_day(text: Seq<char>) -> Option<Ymd>;

/// Reads a day: `str::parse::<NaiveDate>`. What it reads is named
/// [`read_day`].
#[verifier::external_body]
pub(crate) fn parse_day(text: &str) -> (r: Option<Date>)
    ensures
        optional_day(r) == read_day(text@),
{
    let d = text.parse::<chrono::NaiveDate>().ok()?;
    Some(Date { year: d.year(), month: d.month(), day: d.day() })
}

/// Writes a day as `YYYY-MM-DD`: `NaiveDate`'s `Display`. A day of a year with
/// four digits is read back from its text by `NaiveDate`'s `FromStr`.
#[verifier::external_body]
pub(crate) fn write_iso(date: Date) -> (r: String)
    ensures
        r@ == iso_text(date@),
        0 <= date@.year <= 9999 ==> read_day(r@) == Some(date@),
{
    chrono::NaiveDate::from_ymd_opt(date.year, date.month, date.day).unwrap().to_string()
}

/// Writes a day as `YYYYMMDD`: `NaiveDate::format` with `%Y%m%d`.
#[verifier::external_body]
pub(crate) fn write_compact(date: Date) -> (r: String)
    ensures
        r@ == compact_text(date@),
{
    chrono::NaiveDate::from_ymd_opt(date.year, date.month, date.day).unwrap().format("%Y%m%d").to_string()
}

// ---------------------------------------------------------------------------
// Times of day and instants
// ---------------------------------------------------------------------------

/// A time of day, to the nanosecond.
#[derive(Clone, Copy, PartialEq, Eq, Structural, Debug, Hash)]
pub struct TimeOfDay {
    /// Seconds since midnight.
    pub seconds: u32,
    /// Nanoseconds within the second; past a whole second in a leap second.
    pub nanos: u32,
}

impl TimeOfDay {
    pub open spec fn is_before(self, other: TimeOfDay) -> bool {
        self.seconds < other.seconds || self.seconds == other.seconds && self.nanos < other.nanos
    }

    pub fn before(&self, other: &TimeOfDay) -> (r: bool)
        ensures
            r == self.is_before(*other),
    {
        self.seconds < other.seconds || (self.seconds == other.seconds && self.nanos
            < other.nanos)
    }
}

/// The number of January 1, 1970.
pub const EPOCH_DAY: i64 = 719163;

/// What an [`Instant`] means: seconds since January 1, 1970 in UTC, leap
/// seconds not counted, and the nanoseconds after that second. The nanoseconds
/// pass a whole second only within a leap second.
pub struct Moment {
    pub seconds: int,
    pub nanos: int,
}

impl Moment {
    pub open spec fn valid(self) -> bool {
        &&& first_day_number() <= self.day_number() <= last_day_number()
        &&& 0 <= self.nanos < 1_000_000_000 || (self.nanos < 2_000_000_000 && self.nanos >= 0
            && self.seconds % 60 == 59)
    }

    /// The number of the UTC day the moment lies in.
    pub open spec fn day_number(self) -> int {
        self.seconds / 86400 + EPOCH_DAY
    }

    /// Milliseconds since January 1, 1970.
    pub open spec fn millis(self) -> int {
        self.seconds * 1000 + self.nanos / 1_000_000
    }

    pub open spec fn before(self, other: Moment) -> bool {
        self.seconds < other.seconds || self.seconds == other.seconds && self.nanos < other.nanos
    }
}

/// The moment some milliseconds after January 1, 1970.
pub open spec fn moment_at_millis(millis: int) -> Moment {
    Moment { seconds: millis / 1000, nanos: millis % 1000 * 1_000_000 }
}

/// An instant in UTC, in the range the calendar supports.
#[derive(Clone, Copy, PartialEq, Eq, Structural, Debug, Hash)]
pub struct Instant {
    pub(crate) seconds: i64,
    pub(crate) nanos: u32,
}

impl View for Instant {
    type V = Moment;

    closed spec fn view(&self) -> Moment {
        Moment { seconds: self.seconds as int, nanos: self.nanos as int }
    }
}

/// What an optional instant means.
pub open spec fn optional_moment(at: Option<Instant>) -> Option<Moment> {
    match at {
        Some(t) => Some(t@),
        None => None,
    }
}

/// The number of the first supported day, as a constant.
pub const FIRST_DAY: i64 = -95746129;

/// The number of the last supported day, as a constant.
pub const LAST_DAY: i64 = 95745399;

pub proof fn lemma_day_bounds()
    ensures
        first_day_number() == FIRST_DAY,
        last_day_number() == LAST_DAY,
{
    reveal_with_fuel(days_before_month, 13);
}

/// The numbers of existing days lie between the first and the last.
pub proof fn lemma_number_bounds(day: Ymd)
    requires
        day.valid(),
    ensures
        FIRST_DAY <= day.number() <= LAST_DAY,
{
    lemma_day_bounds();
    lemma_within_year(day);
    if FIRST_YEAR < day.year {
        lemma_year_order(FIRST_YEAR as int, day.year);
        lemma_year_length(FIRST_YEAR as int);
    }
    lemma_year_length(LAST_YEAR as int);
    reveal_with_fuel(days_before_month, 14);
    if day.year < LAST_YEAR {
        lemma_year_order(day.year, LAST_YEAR as int);
    }
}

impl Instant {
    #[verifier::type_invariant]
    pub(crate) closed spec fn is_an_instant(self) -> bool {
        self@.valid()
    }

    /// The instant `seconds` after January 1, 1970 and `nanos` nanoseconds
    /// later, when it lies in range.
    pub fn from_timestamp(seconds: i64, nanos: u32) -> (r: Option<Instant>)
        ensures
            match r {
                Some(t) => t@ == (Moment { seconds: seconds as int, nanos: nanos as int })
                    && t@.valid(),
                None => !(Moment { seconds: seconds as int, nanos: nanos as int }).valid(),
            },
    {
        proof {
            lemma_day_bounds();
        }
        if seconds < (FIRST_DAY - EPOCH_DAY) * 86400 || seconds >= (LAST_DAY + 1 - EPOCH_DAY)
            * 86400 {
            return None;
        }
        if nanos < 1_000_000_000 || (nanos < 2_000_000_000 && euclid(seconds, 60) == 59) {
            Some(Instant { seconds, nanos })
        } else {
            None
        }
    }

    /// The instant `millis` milliseconds after January 1, 1970, when it lies in
    /// range.
    pub fn from_timestamp_millis(millis: i64) -> (r: Option<Instant>)
        ensures
            match r {
                Some(t) => t@ == moment_at_millis(millis as int) && t@.valid(),
                None => !moment_at_millis(millis as int).valid(),
            },
    {
        let rest = euclid(millis, 1000);
        let below: i128 = millis as i128 - rest as i128;
        let seconds: i64 = (below / 1000) as i64;
        Instant::from_timestamp(seconds, (rest as u32) * 1_000_000)
    }

    pub fn seconds(&self) -> (r: i64)
        ensures
            r == self@.seconds,
            self@.valid(),
    {
        proof {
            use_type_invariant(self);
        }
        self.seconds
    }

    pub fn nanos(&self) -> (r: u32)
        ensures
            r == self@.nanos,
    {
        self.nanos
    }

    /// Milliseconds since January 1, 1970.
    pub fn millis(&self) -> (r: i64)
        ensures
            r == self@.millis(),
            -8_334_601_228_800_000 <= r < 8_210_266_876_801_000,
    {
        proof {
            use_type_invariant(self);
            lemma_day_bounds();
        }
        self.seconds * 1000 + (self.nanos / 1_000_000) as i64
    }

    /// The number of the UTC day the instant lies in.
    pub fn day_number(&self) -> (r: i64)
        ensures
            r == self@.day_number(),
    {
        proof {
            use_type_invariant(self);
            lemma_day_bounds();
        }
        let rest = euclid(self.seconds, 86400);
        (self.seconds - rest) / 86400 + EPOCH_DAY
    }

    pub fn same_instant(&self, other: &Instant) -> (r: bool)
        ensures
            r == (self@ == other@),
            r == (*self == *other),
    {
        self.seconds == other.seconds && self.nanos == other.nanos
    }

    pub fn before(&self, other: &Instant) -> (r: bool)
        ensures
            r == self@.before(other@),
    {
        self.seconds < other.seconds || (self.seconds == other.seconds && self.nanos
            < other.nanos)
    }
}

/// The remainder that is never negative.
pub(crate) fn euclid(n: i64, by: i64) -> (r: i64)
    requires
        0 < by <= 1_000_000_000_000,
    ensures
        r == (n as int) % (by as int),
        0 <= r < by,
{
    n.checked_rem_euclid(by).unwrap()
}

/// What `DateTime::<Utc>`'s `FromStr` reads in a text: a relaxed RFC 3339
/// date and time with an offset, brought to UTC.
pub uninterp spec fn read_instant(text: Seq<char>) -> Option<Moment>;

/// Reads an instant: `str::parse::<DateTime<Utc>>`. What it reads is named
/// [`read_instant`].
#[verifier::external_body]
pub(crate) fn parse_instant(text: &str) -> (r: Option<Instant>)
    ensures
        optional_moment(r) == read_instant(text@),
{
    let at = text.parse::<chrono::DateTime<chrono::Utc>>().ok()?;
    Some(Instant { seconds: at.timestamp(), nanos: at.timestamp_subsec_nanos() })
}

/// A moment's UTC day and time of day as `YYYY-MM-DDTHH:MM:SS`; within a leap
/// second the seconds read 60.
pub open spec fn stamp_text(at: Moment) -> Seq<char> {
    let second = at.seconds % 86400;
    let leap: int = if at.nanos >= 1_000_000_000 {
        1
    } else {
        0
    };
    iso_text(day_at(at.day_number())) + seq!['T'] + zero_padded((second / 3600) as nat, 2)
        + seq![':'] + zero_padded((second / 60 % 60) as nat, 2) + seq![':'] + zero_padded(
        (second % 60 + leap) as nat,
        2,
    )
}

/// The part of a second after a point, in as many groups of three digits as it
/// takes; nothing for a whole second.
pub open spec fn fraction_text(nanos: int) -> Seq<char> {
    if nanos == 0 {
        Seq::empty()
    } else if nanos % 1_000_000 == 0 {
        seq!['.'] + zero_padded((nanos / 1_000_000) as nat, 3)
    } else if nanos % 1000 == 0 {
        seq!['.'] + zero_padded((nanos / 1000) as nat, 6)
    } else {
        seq!['.'] + zero_padded(nanos as nat, 9)
    }
}

/// A moment in RFC 3339, with the offset written as `+00:00`.
pub open spec fn rfc3339_text(at: Moment) -> Seq<char> {
    stamp_text(at) + fraction_text(at.nanos % 1_000_000_000) + "+00:00"@
}

/// A moment as `YYYY-MM-DDTHH:MM:SS.mmmZ`.
pub open spec fn millis_text(at: Moment) -> Seq<char> {
    stamp_text(at) + seq!['.'] + zero_padded((at.nanos / 1_000_000 % 1000) as nat, 3) + seq!['Z']
}

/// A moment in the years a four-digit year can name, and in no leap second.
pub open spec fn is_plain(at: Moment) -> bool {
    0 <= day_at(at.day_number()).year <= 9999 && at.nanos < 1_000_000_000
}

/// Writes an instant in RFC 3339: `DateTime::to_rfc3339`. A moment within the
/// four-digit years and in no leap second is read back from its text by
/// `DateTime::<Utc>`'s `FromStr`.
#[verifier::external_body]
pub(crate) fn write_rfc3339(at: Instant) -> (r: String)
    ensures
        r@ == rfc3339_text(at@),
        is_plain(at@) ==> read_instant(r@) == Some(at@),
{
    chrono::DateTime::<chrono::Utc>::from_timestamp(at.seconds, at.nanos).unwrap().to_rfc3339()
}

/// Writes an instant to the millisecond, with a `Z`: `DateTime::format` with
/// `%Y-%m-%dT%H:%M:%S%.3fZ`.
#[verifier::external_body]
pub(crate) fn write_millis(at: Instant) -> (r: String)
    ensures
        r@ == millis_text(at@),
{
    chrono::DateTime::<chrono::Utc>::from_timestamp(at.seconds, at.nanos).unwrap().format(
        "%Y-%m-%dT%H:%M:%S%.3fZ",
    ).to_string()
}

/// A UTC date and time as `YYYYMMDDTHHMMSSZ`, by its shape alone.
pub open spec fn is_utc_stamp(s: Seq<char>) -> bool {
    &&& s.len() == 16
    &&& forall|i: int| (0 <= i < 8 || 9 <= i < 15) ==> is_digit(#[trigger] s[i])
    &&& s[8] == 'T'
    &&& s[15] == 'Z'
}

/// A stamp names a day that exists and a time of that day, a leap second among
/// them.
pub open spec fn stamp_is_a_time(s: Seq<char>) -> bool {
    &&& compact_date(s.take(8)) is Some
    &&& digits_value(s.subrange(9, 11)) < 24
    &&& digits_value(s.subrange(11, 13)) < 60
    &&& digits_value(s.subrange(13, 15)) <= 60
}

/// Whether `NaiveDateTime::parse_from_str` reads a stamp by the format
/// `%Y%m%dT%H%M%SZ`: it does where every number in it is in range.
#[verifier::external_body]
pub(crate) fn reads_as_utc_stamp(text: &str) -> (r: bool)
    requires
        is_utc_stamp(text@),
    ensures
        r == stamp_is_a_time(text@),
{
    chrono::NaiveDateTime::parse_from_str(text, "%Y%m%dT%H%M%SZ").is_ok()
}

// ---------------------------------------------------------------------------
// The calendar
// ---------------------------------------------------------------------------

/// A year has 366 days where four divides it, but not a hundred, or four hundred
/// does, and 365 otherwise.
pub proof fn how_long_a_year_is(year: int)
    ensures
        ({
            let first = Ymd { year, month: 1, day: 1 };
            let next = Ymd { year: year + 1, month: 1, day: 1 };
            next.number() - first.number() == if (year % 4 == 0 && year % 100 != 0) || year % 400
                == 0 {
                366int
            } else {
                365int
            }
        }),
{
    assert(days_before_month(year, 1) == 0 && days_before_month(year + 1, 1) == 0);
}

/// The days of the twelve months, in a common year and in a leap year.
pub proof fn how_long_a_month_is(year: int, month: int)
    requires
        1 <= month <= 11,
    ensures
        ({
            let first = Ymd { year, month, day: 1 };
            let next = Ymd { year, month: month + 1, day: 1 };
            let lengths = seq![31int, 28int, 31int, 30int, 31int, 30int, 31int, 31int, 30int, 31int, 30int];
            next.number() - first.number() == lengths[month - 1] + if month == 2 && ((year % 4 == 0
                && year % 100 != 0) || year % 400 == 0) {
                1int
            } else {
                0int
            }
        }),
{
    assert(days_before_month(year, month + 1) == days_before_month(year, month) + days_in_month(
        year,
        month,
    ));
}

/// The calendar repeats after four hundred years, which are 146097 days, weekdays
/// included. Day 1 is a Monday.
pub proof fn the_calendar_repeats(day: Ymd)
    ensures
        (Ymd { year: day.year + 400, ..day }).number() == day.number() + 146097,
        (Ymd { year: day.year + 400, ..day }).weekday() == day.weekday(),
        (Ymd { year: 1, month: 1, day: 1 }).number() == 1,
        (Ymd { year: 1, month: 1, day: 1 }).weekday() == 0,
{
    lemma_months_repeat(day.year, day.month);
    assert(days_before_month(1, 1) == 0);
    let n = day.number() - 1;
    assert((n + 146097) % 7 == n % 7);
}

proof fn lemma_months_repeat(year: int, month: int)
    ensures
        days_before_month(year + 400, month) == days_before_month(year, month),
    decreases month,
{
    if month > 1 {
        lemma_months_repeat(year, month - 1);
        assert(is_leap_year(year + 400) == is_leap_year(year));
    }
}

/// Some months later it is that many months later, and the same day of the month
/// where that month has it, else its last.
pub proof fn months_later_it_is_the_same_day(day: Ymd, months: int)
    requires
        day.valid(),
    ensures
        ({
            let later = day.plus_months(months);
            &&& 1 <= later.month <= 12
            &&& later.year * 12 + later.month == day.year * 12 + day.month + months
            &&& later.day <= days_in_month(later.year, later.month)
            &&& day.day <= days_in_month(later.year, later.month) ==> later.day == day.day
            &&& day.day > days_in_month(later.year, later.month) ==> later.day == days_in_month(
                later.year,
                later.month,
            )
        }),
{
}

} // verus!
