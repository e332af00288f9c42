//! RFC 5545 `RRULE` text and the structured [`TaskRecurrence`].
//!
//! The axes carried are `FREQ`, `INTERVAL`, `BYDAY` on a weekly rule,
//! `BYMONTHDAY` on a monthly or yearly one, and the ends `COUNT` and `UNTIL`.
//! Relative weekdays (`BYDAY=2MO`) and other parts have no slot in the
//! structured form and are dropped on read.

use vstd::prelude::*;

use crate::civil::{
    compact_date, compact_text, lemma_compact_reads_back, optional_day, parse_date, read_date,
    write_compact, Date, Ymd,
};
use crate::rrule_parts::{
    weekday_letters, weekday_letters_name_their_day, weekday_named, weekday_of, weekday_token,
};
use crate::text::{
    all_digits, ascii_upper, chars_of, decimal, decimal_of, first_index, has_prefix, is_digit, join,
    joined, lemma_decimal_reads_back, lemma_first_index, lemma_split_joined, lemma_split_whole,
    lemma_texts_push, lemma_trimmed_same, parse_unsigned, same, split, split_first, split_on,
    split_once, starts_with, string_of, texts, trim, trimmed, unsigned_in, upper, uppercase, Blank,
};
use crate::types::{
    optional_end, EndRule, RecurrenceAnchor, RecurrenceEnd, RecurrenceFrequency,
    RecurrencePlacement, TaskRecurrence, TaskRule, Weekday,
};

verus! {

pub open spec fn freq_name(f: RecurrenceFrequency) -> Seq<char> {
    match f {
        RecurrenceFrequency::Daily => "DAILY"@,
        RecurrenceFrequency::Weekly => "WEEKLY"@,
        RecurrenceFrequency::Monthly => "MONTHLY"@,
        RecurrenceFrequency::Yearly => "YEARLY"@,
    }
}

fn freq_token(f: RecurrenceFrequency) -> (r: &'static str)
    ensures
        r@ == freq_name(f),
{
    match f {
        RecurrenceFrequency::Daily => "DAILY",
        RecurrenceFrequency::Weekly => "WEEKLY",
        RecurrenceFrequency::Monthly => "MONTHLY",
        RecurrenceFrequency::Yearly => "YEARLY",
    }
}

/// The weekday a `BYDAY` token ends in; an ordinal before it is passed over.
pub open spec fn token_weekday(token: Seq<char>) -> Option<Weekday> {
    let t = uppercase(trimmed(token, Blank::Unicode));
    if t.len() < 2 {
        None
    } else {
        weekday_named(t.skip(t.len() - 2))
    }
}

fn parse_weekday(token: &str) -> (r: Option<Weekday>)
    ensures
        r == token_weekday(token@),
{
    let t = chars_of(ascii_upper(trim(token, Blank::Unicode).as_str()).as_str());
    if t.len() < 2 {
        return None;
    }
    let letters = string_of(&t[t.len() - 2..t.len()]);
    assert(letters@ =~= t@.skip(t@.len() - 2));
    weekday_of(letters.as_str())
}

// ---------------------------------------------------------------------------
// Writing
// ---------------------------------------------------------------------------

/// The letters of the weekdays, in order.
pub open spec fn letters_of(days: Seq<Weekday>) -> Seq<Seq<char>> {
    days.map_values(|d: Weekday| weekday_letters(d))
}

/// `INTERVAL`, where it says something.
pub open spec fn interval_part(rule: TaskRule) -> Seq<Seq<char>> {
    if rule.interval > 1 {
        seq!["INTERVAL="@ + decimal(rule.interval as nat)]
    } else {
        Seq::empty()
    }
}

/// `BYDAY`, which only a weekly rule carries.
pub open spec fn by_day_part(rule: TaskRule) -> Seq<Seq<char>> {
    match rule.day_of_week {
        Some(days) => if rule.frequency is Weekly && days.len() > 0 {
            seq!["BYDAY="@ + joined(letters_of(days), ","@)]
        } else {
            Seq::empty()
        },
        None => Seq::empty(),
    }
}

/// `BYMONTHDAY`, which a monthly or a yearly rule carries.
pub open spec fn by_month_day_part(rule: TaskRule) -> Seq<Seq<char>> {
    match rule.day_of_month {
        Some(day) => if rule.frequency is Monthly || rule.frequency is Yearly {
            seq!["BYMONTHDAY="@ + decimal(day as nat)]
        } else {
            Seq::empty()
        },
        None => Seq::empty(),
    }
}

/// `COUNT` or `UNTIL`.
pub open spec fn end_part(rule: TaskRule) -> Seq<Seq<char>> {
    match rule.end {
        Some(EndRule::After { occurrences }) => seq!["COUNT="@ + decimal(occurrences as nat)],
        Some(EndRule::OnDate { date }) => seq!["UNTIL="@ + compact_text(date)],
        _ => Seq::empty(),
    }
}

/// The parts a rule is written with, in order.
pub open spec fn written_parts(rule: TaskRule) -> Seq<Seq<char>> {
    seq!["FREQ="@ + freq_name(rule.frequency)] + interval_part(rule) + by_day_part(rule)
        + by_month_day_part(rule) + end_part(rule)
}

/// The rule as text.
pub open spec fn rule_text(rule: TaskRule) -> Seq<char> {
    joined(written_parts(rule), ";"@)
}

/// `name` followed by `value`, as one text.
fn labelled(name: &str, value: &str) -> (r: String)
    ensures
        r@ == name@ + value@,
{
    let mut out: String = String::new();
    out.append(name);
    out.append(value);
    assert(out@ =~= name@ + value@);
    out
}

fn day_letters(days: &[Weekday]) -> (r: String)
    ensures
        r@ == joined(letters_of(days@), ","@),
{
    let mut letters: Vec<String> = Vec::new();
    let mut i: usize = 0;
    while i < days.len()
        invariant
            i <= days.len(),
            texts(letters@) == letters_of(days@.take(i as int)),
        decreases days.len() - i,
    {
        let token = weekday_token(days[i]).to_owned();
        proof {
            lemma_texts_push(letters@, token);
        }
        letters.push(token);
        i = i + 1;
        assert(texts(letters@) =~= letters_of(days@.take(i as int)));
    }
    assert(days@.take(i as int) =~= days@);
    join(letters.as_slice(), ",")
}

/// Serialises a [`TaskRecurrence`] into an RFC 5545 `RRULE` value (without the
/// `RRULE:` prefix), e.g. `FREQ=WEEKLY;INTERVAL=2;BYDAY=MO,WE`.
pub fn task_recurrence_to_rrule(rec: &TaskRecurrence) -> (r: String)
    ensures
        r@ == rule_text(rec@),
{
    let ghost rule = rec@;
    let mut parts: Vec<String> = Vec::new();
    let freq = labelled("FREQ=", freq_token(rec.frequency));
    parts.push(freq);
    assert(texts(parts@) =~= seq!["FREQ="@ + freq_name(rule.frequency)]);
    if rec.interval > 1 {
        let p = labelled("INTERVAL=", decimal_of(rec.interval as u64).as_str());
        proof {
            lemma_texts_push(parts@, p);
        }
        parts.push(p);
    }
    assert(texts(parts@) =~= seq!["FREQ="@ + freq_name(rule.frequency)] + interval_part(rule));
    let ghost so_far = texts(parts@);
    if let RecurrenceFrequency::Weekly = rec.frequency {
        if let Some(days) = &rec.day_of_week {
            if days.len() > 0 {
                let p = labelled("BYDAY=", day_letters(days.as_slice()).as_str());
                proof {
                    lemma_texts_push(parts@, p);
                }
                parts.push(p);
            }
        }
    }
    assert(texts(parts@) =~= so_far + by_day_part(rule));
    let ghost so_far = texts(parts@);
    if let Some(day) = rec.day_of_month {
        let fits = match rec.frequency {
            RecurrenceFrequency::Monthly | RecurrenceFrequency::Yearly => true,
            _ => false,
        };
        if fits {
            let p = labelled("BYMONTHDAY=", decimal_of(day as u64).as_str());
            proof {
                lemma_texts_push(parts@, p);
            }
            parts.push(p);
        }
    }
    assert(texts(parts@) =~= so_far + by_month_day_part(rule));
    let ghost so_far = texts(parts@);
    match rec.end {
        Some(RecurrenceEnd::After { occurrences }) => {
            let p = labelled("COUNT=", decimal_of(occurrences as u64).as_str());
            proof {
                lemma_texts_push(parts@, p);
            }
            parts.push(p);
        },
        Some(RecurrenceEnd::OnDate { date }) => {
            let p = labelled("UNTIL=", write_compact(date).as_str());
            proof {
                lemma_texts_push(parts@, p);
            }
            parts.push(p);
        },
        Some(RecurrenceEnd::Never) | None => {},
    }
    assert(texts(parts@) =~= so_far + end_part(rule));
    join(parts.as_slice(), ";")
}

// ---------------------------------------------------------------------------
// Reading
// ---------------------------------------------------------------------------

/// What the parts read so far say.
pub struct Reading {
    pub frequency: Option<RecurrenceFrequency>,
    pub interval: u32,
    pub day_of_week: Option<Seq<Weekday>>,
    pub day_of_month: Option<u8>,
    pub end: Option<EndRule>,
}

/// The frequency a `FREQ` value names.
pub open spec fn frequency_in(value: Seq<char>) -> Option<RecurrenceFrequency> {
    let name = uppercase(value);
    if name == "DAILY"@ {
        Some(RecurrenceFrequency::Daily)
    } else if name == "WEEKLY"@ {
        Some(RecurrenceFrequency::Weekly)
    } else if name == "MONTHLY"@ {
        Some(RecurrenceFrequency::Monthly)
    } else if name == "YEARLY"@ {
        Some(RecurrenceFrequency::Yearly)
    } else {
        None
    }
}

/// A whole number that fits 32 bits.
pub open spec fn count_in(value: Seq<char>) -> Option<u32> {
    match unsigned_in(value) {
        Some(n) => if n <= u32::MAX {
            Some(n as u32)
        } else {
            None
        },
        None => None,
    }
}

/// The weekdays the tokens name, in order; what names none is passed over.
pub open spec fn weekdays_in(tokens: Seq<Seq<char>>) -> Seq<Weekday>
    decreases tokens.len(),
{
    if tokens.len() == 0 {
        Seq::empty()
    } else {
        let before = weekdays_in(tokens.drop_last());
        match token_weekday(tokens.last()) {
            Some(day) => before.push(day),
            None => before,
        }
    }
}

/// The day of the month the first of the listed days is, 1 to 31.
pub open spec fn month_day_in(value: Seq<char>) -> Option<u8> {
    match unsigned_in(trimmed(split_on(value, ',')[0], Blank::Unicode)) {
        Some(n) => if 1 <= n <= 31 {
            Some(n as u8)
        } else {
            None
        },
        None => None,
    }
}

/// The day an `UNTIL` value names, in its date form or its date-time form.
pub open spec fn until_in(value: Seq<char>) -> Option<Ymd> {
    let date = split_on(trimmed(value, Blank::Unicode), 'T')[0];
    if date.len() == 8 && all_digits(date) {
        compact_date(date)
    } else {
        read_date(date, "%Y%m%d"@)
    }
}

/// The key and the value of a piece; one without `=` has an empty value.
pub open spec fn key_and_value(piece: Seq<char>) -> (Seq<char>, Seq<char>) {
    let (k, v) = match split_first(piece, '=') {
        Some((k, v)) => (k, v),
        None => (piece, Seq::empty()),
    };
    (uppercase(trimmed(k, Blank::Unicode)), trimmed(v, Blank::Unicode))
}

/// What one more part adds. A value that cannot be read adds nothing, except
/// that a `FREQ` naming none of the four takes the frequency back.
pub open spec fn read_part(so_far: Reading, piece: Seq<char>) -> Reading {
    let (key, value) = key_and_value(piece);
    if key == "FREQ"@ {
        Reading { frequency: frequency_in(value), ..so_far }
    } else if key == "INTERVAL"@ {
        match count_in(value) {
            Some(n) => Reading {
                interval: if n == 0 {
                    1
                } else {
                    n
                },
                ..so_far
            },
            None => so_far,
        }
    } else if key == "BYDAY"@ {
        let days = weekdays_in(split_on(value, ','));
        if days.len() > 0 {
            Reading { day_of_week: Some(days), ..so_far }
        } else {
            so_far
        }
    } else if key == "BYMONTHDAY"@ {
        match month_day_in(value) {
            Some(day) => Reading { day_of_month: Some(day), ..so_far },
            None => so_far,
        }
    } else if key == "COUNT"@ {
        match count_in(value) {
            Some(n) => Reading { end: Some(EndRule::After { occurrences: n }), ..so_far },
            None => so_far,
        }
    } else if key == "UNTIL"@ {
        match until_in(value) {
            Some(date) => Reading { end: Some(EndRule::OnDate { date }), ..so_far },
            None => so_far,
        }
    } else {
        so_far
    }
}

/// What the pieces say together.
pub open spec fn read_pieces(pieces: Seq<Seq<char>>) -> Reading
    decreases pieces.len(),
{
    if pieces.len() == 0 {
        Reading {
            frequency: None,
            interval: 1,
            day_of_week: None,
            day_of_month: None,
            end: None,
        }
    } else {
        read_part(read_pieces(pieces.drop_last()), pieces.last())
    }
}

/// A rule without the white space around it and without a leading `RRULE:`.
pub open spec fn rule_body(rrule: Seq<char>) -> Seq<char> {
    let t = trimmed(rrule, Blank::Unicode);
    if starts_with(t, "RRULE:"@) {
        t.skip("RRULE:"@.len() as int)
    } else {
        t
    }
}

/// The structured rule a text says, or nothing where it names no usable
/// frequency. A weekday list stays on a weekly rule only.
pub open spec fn read_rule(rrule: Seq<char>) -> Option<TaskRule> {
    let said = read_pieces(split_on(rule_body(rrule), ';'));
    match said.frequency {
        None => None,
        Some(frequency) => Some(
            TaskRule {
                frequency,
                interval: said.interval,
                day_of_week: if frequency is Weekly {
                    said.day_of_week
                } else {
                    None
                },
                day_of_month: said.day_of_month,
                end: said.end,
                anchor: RecurrenceAnchor::FromDate,
                placement: RecurrencePlacement::Schedule,
                fixed_dates: None,
            },
        ),
    }
}

fn parse_frequency(value: &str) -> (r: Option<RecurrenceFrequency>)
    ensures
        r == frequency_in(value@),
{
    let name = ascii_upper(value);
    if same(name.as_str(), "DAILY") {
        Some(RecurrenceFrequency::Daily)
    } else if same(name.as_str(), "WEEKLY") {
        Some(RecurrenceFrequency::Weekly)
    } else if same(name.as_str(), "MONTHLY") {
        Some(RecurrenceFrequency::Monthly)
    } else if same(name.as_str(), "YEARLY") {
        Some(RecurrenceFrequency::Yearly)
    } else {
        None
    }
}

fn parse_count(value: &str) -> (r: Option<u32>)
    ensures
        r == count_in(value@),
{
    match parse_unsigned(value, u32::MAX as u64) {
        Some(n) => Some(n as u32),
        None => None,
    }
}

fn parse_weekdays(value: &str) -> (r: Vec<Weekday>)
    ensures
        r@ == weekdays_in(split_on(value@, ',')),
{
    let tokens = split(value, ',');
    let ghost all = texts(tokens@);
    let mut days: Vec<Weekday> = Vec::new();
    let mut i: usize = 0;
    while i < tokens.len()
        invariant
            i <= tokens.len(),
            all == texts(tokens@),
            days@ == weekdays_in(all.take(i as int)),
        decreases tokens.len() - i,
    {
        assert(all.take(i as int + 1).drop_last() =~= all.take(i as int));
        if let Some(day) = parse_weekday(tokens[i].as_str()) {
            days.push(day);
        }
        i = i + 1;
    }
    assert(all.take(i as int) =~= all);
    days
}

fn parse_month_day(value: &str) -> (r: Option<u8>)
    ensures
        r == month_day_in(value@),
{
    let tokens = split(value, ',');
    assert(texts(tokens@)[0] == tokens@[0]@);
    match parse_unsigned(trim(tokens[0].as_str(), Blank::Unicode).as_str(), 255) {
        Some(n) => if 1 <= n && n <= 31 {
            Some(n as u8)
        } else {
            None
        },
        None => None,
    }
}

fn parse_until(value: &str) -> (r: Option<Date>)
    ensures
        optional_day(r) == until_in(value@),
{
    let v = trim(value, Blank::Unicode);
    let tokens = split(v.as_str(), 'T');
    assert(texts(tokens@)[0] == tokens@[0]@);
    parse_date(tokens[0].as_str(), "%Y%m%d")
}

fn cut_key_and_value(piece: &str) -> (r: (String, String))
    ensures
        key_and_value(piece@) == (r.0@, r.1@),
{
    match split_once(piece, '=') {
        Some((k, v)) => (
            ascii_upper(trim(k.as_str(), Blank::Unicode).as_str()),
            trim(v.as_str(), Blank::Unicode),
        ),
        None => (
            ascii_upper(trim(piece, Blank::Unicode).as_str()),
            trim(String::new().as_str(), Blank::Unicode),
        ),
    }
}

/// Parses an RFC 5545 `RRULE` value into a [`TaskRecurrence`]. Tolerates a
/// leading `RRULE:` and surrounding whitespace. Returns `None` when there is no
/// usable `FREQ`. Parts without a slot are ignored.
pub fn rrule_to_task_recurrence(rrule: &str) -> (r: Option<TaskRecurrence>)
    ensures
        match r {
            Some(rec) => read_rule(rrule@) == Some(rec@),
            None => read_rule(rrule@) is None,
        },
{
    let t = trim(rrule, Blank::Unicode);
    let body = if has_prefix(t.as_str(), "RRULE:") {
        let chars = chars_of(t.as_str());
        let at: usize = chars_of("RRULE:").len();
        let rest = string_of(&chars[at..chars.len()]);
        assert(rest@ =~= t@.skip(at as int));
        rest
    } else {
        t
    };
    let pieces = split(body.as_str(), ';');
    let ghost all = texts(pieces@);
    let mut frequency: Option<RecurrenceFrequency> = None;
    let mut interval: u32 = 1;
    let mut day_of_week: Option<Vec<Weekday>> = None;
    let mut day_of_month: Option<u8> = None;
    let mut end: Option<RecurrenceEnd> = None;
    let mut i: usize = 0;
    while i < pieces.len()
        invariant
            i <= pieces.len(),
            all == texts(pieces@),
            all == split_on(rule_body(rrule@), ';'),
            read_pieces(all.take(i as int)) == (Reading {
                frequency,
                interval,
                day_of_week: crate::types::optional_list(day_of_week),
                day_of_month,
                end: optional_end(end),
            }),
        decreases pieces.len() - i,
    {
        assert(all.take(i as int + 1).drop_last() =~= all.take(i as int));
        assert(all.take(i as int + 1).last() == pieces@[i as int]@);
        let (key, value) = cut_key_and_value(pieces[i].as_str());
        let key = key.as_str();
        let value = value.as_str();
        if same(key, "FREQ") {
            frequency = parse_frequency(value);
        } else if same(key, "INTERVAL") {
            if let Some(n) = parse_count(value) {
                interval = if n == 0 {
                    1
                } else {
                    n
                };
            }
        } else if same(key, "BYDAY") {
            let days = parse_weekdays(value);
            if days.len() > 0 {
                day_of_week = Some(days);
            }
        } else if same(key, "BYMONTHDAY") {
            if let Some(day) = parse_month_day(value) {
                day_of_month = Some(day);
            }
        } else if same(key, "COUNT") {
            if let Some(n) = parse_count(value) {
                end = Some(RecurrenceEnd::After { occurrences: n });
            }
        } else if same(key, "UNTIL") {
            if let Some(date) = parse_until(value) {
                end = Some(RecurrenceEnd::OnDate { date });
            }
        }
        i = i + 1;
    }
    assert(all.take(i as int) =~= all);
    match frequency {
        None => None,
        Some(frequency) => {
            let day_of_week = match frequency {
                RecurrenceFrequency::Weekly => day_of_week,
                _ => None,
            };
            Some(
                TaskRecurrence {
                    frequency,
                    interval,
                    day_of_week,
                    day_of_month,
                    end,
                    anchor: RecurrenceAnchor::FromDate,
                    placement: RecurrencePlacement::Schedule,
                    fixed_dates: None,
                },
            )
        },
    }
}

// ---------------------------------------------------------------------------
// Writing and reading back
// ---------------------------------------------------------------------------

/// What of a rule its text keeps: an interval of at least 1, weekdays on a
/// weekly rule only, a day of the month on a monthly or yearly rule only and
/// only where there is such a day, and an end that comes. The anchor, the
/// placement and fixed dates are not written.
pub open spec fn kept_in_text(rule: TaskRule) -> TaskRule {
    TaskRule {
        frequency: rule.frequency,
        interval: if rule.interval == 0 {
            1
        } else {
            rule.interval
        },
        day_of_week: match rule.day_of_week {
            Some(days) => if rule.frequency is Weekly && days.len() > 0 {
                Some(days)
            } else {
                None
            },
            None => None,
        },
        day_of_month: match rule.day_of_month {
            Some(day) => if (rule.frequency is Monthly || rule.frequency is Yearly) && 1 <= day
                <= 31 {
                Some(day)
            } else {
                None
            },
            None => None,
        },
        end: match rule.end {
            Some(EndRule::Never) => None,
            other => other,
        },
        anchor: RecurrenceAnchor::FromDate,
        placement: RecurrencePlacement::Schedule,
        fixed_dates: None,
    }
}

/// A character of a written part: nothing that trimming, upper-casing or
/// cutting at semicolons would touch.
spec fn is_rule_char(c: char) -> bool {
    ('A' <= c && c <= 'Z') || is_digit(c) || c == ',' || c == '='
}

spec fn is_rule_text(s: Seq<char>) -> bool {
    forall|i: int| 0 <= i < s.len() ==> is_rule_char(#[trigger] s[i])
}

proof fn lemma_rule_text_concat(a: Seq<char>, b: Seq<char>)
    requires
        is_rule_text(a),
        is_rule_text(b),
    ensures
        is_rule_text(a + b),
{
    let ab = a + b;
    assert forall|i: int| 0 <= i < ab.len() implies is_rule_char(#[trigger] ab[i]) by {
        if i < a.len() {
            assert(ab[i] == a[i]);
        } else {
            assert(ab[i] == b[i - a.len()]);
        }
    }
}

proof fn lemma_rule_text_trimmed(s: Seq<char>)
    requires
        is_rule_text(s),
    ensures
        trimmed(s, Blank::Unicode) == s,
{
    if s.len() > 0 {
        assert(is_rule_char(s[0]));
        assert(is_rule_char(s[s.len() - 1]));
    }
    lemma_trimmed_same(s, Blank::Unicode);
}

proof fn lemma_digits_are_rule_text(n: nat)
    ensures
        is_rule_text(decimal(n)),
{
    lemma_decimal_reads_back(n);
}

/// A labelled value is cut into the label and the value.
proof fn lemma_labelled(label: Seq<char>, value: Seq<char>)
    requires
        forall|i: int| 0 <= i < label.len() ==> 'A' <= #[trigger] label[i] && label[i] <= 'Z',
        is_rule_text(value),
    ensures
        key_and_value(label + seq!['='] + value) == (label, value),
        is_rule_text(label + seq!['='] + value),
{
    let piece = label + seq!['='] + value;
    assert(is_rule_text(label));
    assert(is_rule_text(seq!['=']));
    lemma_rule_text_concat(label, seq!['=']);
    lemma_rule_text_concat(label + seq!['='], value);
    lemma_first_index(piece, '=');
    assert(piece[label.len() as int] == '=');
    assert forall|j: int| 0 <= j < label.len() implies piece[j] != '=' by {
        assert(piece[j] == label[j]);
    }
    assert(first_index(piece, '=') == Some(label.len() as int));
    assert(piece.take(label.len() as int) =~= label);
    assert(piece.skip(label.len() as int + 1) =~= value);
    lemma_rule_text_trimmed(label);
    lemma_rule_text_trimmed(value);
    assert(uppercase(label) =~= label);
}

proof fn lemma_letters(days: Seq<Weekday>)
    ensures
        is_rule_text(joined(letters_of(days), ","@)),
        weekdays_in(letters_of(days)) == days,
    decreases days.len(),
{
    reveal_strlit(",");
    let letters = letters_of(days);
    if days.len() > 0 {
        lemma_letters(days.drop_last());
        assert(letters.drop_last() =~= letters_of(days.drop_last()));
        let last = weekday_letters(days.last());
        weekday_letters_name_their_day(days.last());
        assert(letters.last() == last);
        assert(is_rule_text(last));
        lemma_rule_text_trimmed(last);
        assert(last.skip(0) =~= last);
        assert(days =~= days.drop_last().push(days.last()));
        assert(is_rule_text(","@)) by {
            assert(","@ =~= seq![',']);
        }
        if days.len() > 1 {
            lemma_rule_text_concat(joined(letters.drop_last(), ","@), ","@);
            lemma_rule_text_concat(joined(letters.drop_last(), ","@) + ","@, last);
        }
    }
}

proof fn lemma_letters_split(days: Seq<Weekday>)
    requires
        days.len() > 0,
    ensures
        split_on(joined(letters_of(days), ","@), ',') == letters_of(days),
{
    reveal_strlit(",");
    assert(","@ =~= seq![',']);
    let letters = letters_of(days);
    assert forall|k: int, i: int|
        0 <= k < letters.len() && 0 <= i < letters[k].len() implies #[trigger] letters[k][i]
        != ',' by {
        weekday_letters_name_their_day(days[k]);
    }
    lemma_split_joined(letters, ',');
}

proof fn lemma_count_reads_back(n: u32)
    ensures
        count_in(decimal(n as nat)) == Some(n),
{
    lemma_decimal_reads_back(n as nat);
}

proof fn lemma_month_day_reads_back(n: u8)
    ensures
        month_day_in(decimal(n as nat)) == if 1 <= n <= 31 {
            Some(n)
        } else {
            None::<u8>
        },
{
    let d = decimal(n as nat);
    lemma_decimal_reads_back(n as nat);
    lemma_digits_are_rule_text(n as nat);
    lemma_rule_text_trimmed(d);
    assert forall|i: int| 0 <= i < d.len() implies #[trigger] d[i] != ',' by {
        assert(is_digit(d[i]));
    }
    lemma_split_whole(d, ',');
}

proof fn lemma_until_reads_back(date: Ymd)
    requires
        date.valid(),
        0 <= date.year <= 9999,
    ensures
        until_in(compact_text(date)) == Some(date),
        is_rule_text(compact_text(date)),
{
    let d = compact_text(date);
    lemma_compact_reads_back(date);
    assert(is_rule_text(d)) by {
        assert forall|i: int| 0 <= i < d.len() implies is_rule_char(#[trigger] d[i]) by {
            assert(is_digit(d[i]));
        }
    }
    lemma_rule_text_trimmed(d);
    assert forall|i: int| 0 <= i < d.len() implies #[trigger] d[i] != 'T' by {
        assert(is_digit(d[i]));
    }
    lemma_split_whole(d, 'T');
}

proof fn lemma_frequency(f: RecurrenceFrequency)
    ensures
        is_rule_text(freq_name(f)),
        frequency_in(freq_name(f)) == Some(f),
        freq_name(f).len() > 0,
{
    reveal_strlit("DAILY");
    reveal_strlit("WEEKLY");
    reveal_strlit("MONTHLY");
    reveal_strlit("YEARLY");
    let name = freq_name(f);
    assert(is_rule_text(name));
    assert forall|i: int| 0 <= i < name.len() implies upper(#[trigger] name[i]) == name[i] by {}
    assert(uppercase(name) =~= name);
    assert("DAILY"@[0] == 'D');
    assert("WEEKLY"@[0] == 'W');
    assert("MONTHLY"@[0] == 'M');
    assert("YEARLY"@[0] == 'Y');
}

/// The labels as a name and the equals sign after it.
proof fn lemma_labels()
    ensures
        "FREQ="@ == "FREQ"@ + seq!['='],
        "INTERVAL="@ == "INTERVAL"@ + seq!['='],
        "BYDAY="@ == "BYDAY"@ + seq!['='],
        "BYMONTHDAY="@ == "BYMONTHDAY"@ + seq!['='],
        "COUNT="@ == "COUNT"@ + seq!['='],
        "UNTIL="@ == "UNTIL"@ + seq!['='],
        forall|i: int|
            0 <= i < "FREQ"@.len() ==> 'A' <= #[trigger] "FREQ"@[i] && "FREQ"@[i] <= 'Z',
        forall|i: int|
            0 <= i < "INTERVAL"@.len() ==> 'A' <= #[trigger] "INTERVAL"@[i] && "INTERVAL"@[i]
                <= 'Z',
        forall|i: int|
            0 <= i < "BYDAY"@.len() ==> 'A' <= #[trigger] "BYDAY"@[i] && "BYDAY"@[i] <= 'Z',
        forall|i: int|
            0 <= i < "BYMONTHDAY"@.len() ==> 'A' <= #[trigger] "BYMONTHDAY"@[i]
                && "BYMONTHDAY"@[i] <= 'Z',
        forall|i: int|
            0 <= i < "COUNT"@.len() ==> 'A' <= #[trigger] "COUNT"@[i] && "COUNT"@[i] <= 'Z',
        forall|i: int|
            0 <= i < "UNTIL"@.len() ==> 'A' <= #[trigger] "UNTIL"@[i] && "UNTIL"@[i] <= 'Z',
        "FREQ"@[0] == 'F',
        "FREQ"@.len() == 4,
        "INTERVAL"@[0] == 'I',
        "BYDAY"@.len() == 5,
        "BYDAY"@[0] == 'B',
        "BYMONTHDAY"@.len() == 10,
        "BYMONTHDAY"@[0] == 'B',
        "COUNT"@[0] == 'C',
        "UNTIL"@[0] == 'U',
        "RRULE:"@.len() == 6,
        "RRULE:"@[0] == 'R',
        ";"@ == seq![';'],
{
    reveal_strlit("FREQ=");
    reveal_strlit("INTERVAL=");
    reveal_strlit("BYDAY=");
    reveal_strlit("BYMONTHDAY=");
    reveal_strlit("COUNT=");
    reveal_strlit("UNTIL=");
    reveal_strlit("FREQ");
    reveal_strlit("INTERVAL");
    reveal_strlit("BYDAY");
    reveal_strlit("BYMONTHDAY");
    reveal_strlit("COUNT");
    reveal_strlit("UNTIL");
    reveal_strlit("RRULE:");
    reveal_strlit(";");
    assert("FREQ="@ =~= "FREQ"@ + seq!['=']);
    assert("INTERVAL="@ =~= "INTERVAL"@ + seq!['=']);
    assert("BYDAY="@ =~= "BYDAY"@ + seq!['=']);
    assert("BYMONTHDAY="@ =~= "BYMONTHDAY"@ + seq!['=']);
    assert("COUNT="@ =~= "COUNT"@ + seq!['=']);
    assert("UNTIL="@ =~= "UNTIL"@ + seq!['=']);
    assert(";"@ =~= seq![';']);
}

/// One more piece is read after the ones before it.
proof fn lemma_read_push(pieces: Seq<Seq<char>>, piece: Seq<char>)
    ensures
        read_pieces(pieces.push(piece)) == read_part(read_pieces(pieces), piece),
{
    assert(pieces.push(piece).drop_last() =~= pieces);
}

/// The written parts say what the rule keeps, and each is a plain text.
proof fn lemma_written_parts(rule: TaskRule)
    requires
        rule.end matches Some(EndRule::OnDate { date }) ==> date.valid() && 0 <= date.year
            <= 9999,
    ensures
        ({
            let kept = kept_in_text(rule);
            read_pieces(written_parts(rule)) == Reading {
                frequency: Some(kept.frequency),
                interval: kept.interval,
                day_of_week: kept.day_of_week,
                day_of_month: kept.day_of_month,
                end: kept.end,
            }
        }),
        forall|k: int|
            0 <= k < written_parts(rule).len() ==> is_rule_text(#[trigger] written_parts(rule)[k]),
{
    lemma_labels();
    let kept = kept_in_text(rule);
    let freq = "FREQ="@ + freq_name(rule.frequency);
    lemma_frequency(rule.frequency);
    lemma_labelled("FREQ"@, freq_name(rule.frequency));
    let p1 = seq![freq];
    lemma_read_push(Seq::empty(), freq);
    assert(Seq::<Seq<char>>::empty().push(freq) =~= p1);
    let p2 = p1 + interval_part(rule);
    if rule.interval > 1 {
        let digits = decimal(rule.interval as nat);
        lemma_count_reads_back(rule.interval);
        lemma_digits_are_rule_text(rule.interval as nat);
        lemma_labelled("INTERVAL"@, digits);
        lemma_read_push(p1, "INTERVAL="@ + digits);
        assert(p2 =~= p1.push("INTERVAL="@ + digits));
    } else {
        assert(p2 =~= p1);
    }
    let p3 = p2 + by_day_part(rule);
    if by_day_part(rule).len() > 0 {
        let days = rule.day_of_week->0;
        let list = joined(letters_of(days), ","@);
        lemma_letters(days);
        lemma_letters_split(days);
        lemma_labelled("BYDAY"@, list);
        lemma_read_push(p2, "BYDAY="@ + list);
        assert(p3 =~= p2.push("BYDAY="@ + list));
    } else {
        assert(p3 =~= p2);
    }
    let p4 = p3 + by_month_day_part(rule);
    if by_month_day_part(rule).len() > 0 {
        let day = rule.day_of_month->0;
        lemma_month_day_reads_back(day);
        lemma_digits_are_rule_text(day as nat);
        lemma_labelled("BYMONTHDAY"@, decimal(day as nat));
        lemma_read_push(p3, "BYMONTHDAY="@ + decimal(day as nat));
        assert(p4 =~= p3.push("BYMONTHDAY="@ + decimal(day as nat)));
    } else {
        assert(p4 =~= p3);
    }
    let p5 = p4 + end_part(rule);
    match rule.end {
        Some(EndRule::After { occurrences }) => {
            lemma_count_reads_back(occurrences);
            lemma_digits_are_rule_text(occurrences as nat);
            lemma_labelled("COUNT"@, decimal(occurrences as nat));
            lemma_read_push(p4, "COUNT="@ + decimal(occurrences as nat));
            assert(p5 =~= p4.push("COUNT="@ + decimal(occurrences as nat)));
        },
        Some(EndRule::OnDate { date }) => {
            lemma_until_reads_back(date);
            lemma_labelled("UNTIL"@, compact_text(date));
            lemma_read_push(p4, "UNTIL="@ + compact_text(date));
            assert(p5 =~= p4.push("UNTIL="@ + compact_text(date)));
        },
        _ => {
            assert(p5 =~= p4);
        },
    }
    assert(written_parts(rule) == p5);
}

/// A rule written as text and read back is what the text keeps of it. The days
/// of an end date are written in four digits, so its year is one of four
/// digits.
pub proof fn reading_back_a_written_rule(rule: TaskRule)
    requires
        rule.end matches Some(EndRule::OnDate { date }) ==> date.valid() && 0 <= date.year
            <= 9999,
    ensures
        read_rule(rule_text(rule)) == Some(kept_in_text(rule)),
{
    lemma_written_parts(rule);
    lemma_labels();
    let parts = written_parts(rule);
    let text = rule_text(rule);
    assert forall|k: int, i: int|
        0 <= k < parts.len() && 0 <= i < parts[k].len() implies #[trigger] parts[k][i] != ';' by {
        assert(is_rule_text(parts[k]));
        assert(is_rule_char(parts[k][i]));
    }
    lemma_split_joined(parts, ';');
    lemma_joined_ends(parts, ";"@);
    assert(parts[0] == "FREQ="@ + freq_name(rule.frequency));
    assert(parts[0][0] == 'F');
    assert(text[0] == 'F');
    assert(parts.last().len() > 0) by {
        lemma_frequency(rule.frequency);
        assert(forall|k: int| 0 <= k < parts.len() ==> (#[trigger] parts[k]).len() > 0);
    }
    assert(is_rule_text(parts[parts.len() - 1]));
    assert(is_rule_char(parts.last()[parts.last().len() - 1]));
    lemma_trimmed_same(text, Blank::Unicode);
    if starts_with(text, "RRULE:"@) {
        assert(text.subrange(0, 6)[0] == text[0]);
    }
}

/// A joined text begins as its first piece begins and ends as its last ends.
proof fn lemma_joined_ends(parts: Seq<Seq<char>>, sep: Seq<char>)
    requires
        parts.len() > 0,
        parts[0].len() > 0,
        parts.last().len() > 0,
    ensures
        joined(parts, sep).len() > 0,
        joined(parts, sep)[0] == parts[0][0],
        joined(parts, sep).last() == parts.last().last(),
    decreases parts.len(),
{
    if parts.len() > 1 {
        let before = parts.drop_last();
        lemma_joined_begins(before, sep);
        let j = joined(before, sep) + sep + parts.last();
        assert(j[0] == joined(before, sep)[0]);
        assert(before[0] == parts[0]);
    }
}

proof fn lemma_joined_begins(parts: Seq<Seq<char>>, sep: Seq<char>)
    requires
        parts.len() > 0,
        parts[0].len() > 0,
    ensures
        joined(parts, sep).len() > 0,
        joined(parts, sep)[0] == parts[0][0],
    decreases parts.len(),
{
    if parts.len() > 1 {
        lemma_joined_begins(parts.drop_last(), sep);
        assert(parts.drop_last()[0] == parts[0]);
    }
}

// ---------------------------------------------------------------------------
// What a text says
// ---------------------------------------------------------------------------

/// What a rule's text keeps, said of the rule: how often, how many between, the
/// weekdays of a weekly rule, the day of the month of a monthly or yearly one,
/// and the end. Nothing else is read out of it.
pub proof fn a_written_rule_keeps_what_it_says(rule: TaskRule)
    requires
        rule.end matches Some(EndRule::OnDate { date }) ==> date.valid() && 0 <= date.year
            <= 9999,
    ensures
        read_rule(rule_text(rule)) is Some,
        ({
            let back = read_rule(rule_text(rule))->0;
            let by_month = rule.frequency is Monthly || rule.frequency is Yearly;
            &&& back.frequency == rule.frequency
            &&& rule.interval >= 1 ==> back.interval == rule.interval
            &&& rule.interval == 0 ==> back.interval == 1
            &&& rule.frequency is Weekly && rule.day_of_week is Some && rule.day_of_week->0.len()
                > 0 ==> back.day_of_week == rule.day_of_week
            &&& !(rule.frequency is Weekly) || rule.day_of_week is None
                || rule.day_of_week->0.len() == 0 ==> back.day_of_week is None
            &&& by_month && rule.day_of_month is Some && 1 <= rule.day_of_month->0 <= 31
                ==> back.day_of_month == rule.day_of_month
            &&& !by_month || rule.day_of_month is None ==> back.day_of_month is None
            &&& (rule.end is None || rule.end->0 is Never) ==> back.end is None
            &&& rule.end is Some && !(rule.end->0 is Never) ==> back.end == rule.end
            &&& back.anchor is FromDate && back.placement is Schedule && back.fixed_dates is None
        }),
{
    reading_back_a_written_rule(rule);
}

/// A rule is written part by part: the frequency first, then only what says
/// something.
pub proof fn a_rule_is_written_part_by_part(rule: TaskRule)
    ensures
        ({
            let parts = written_parts(rule);
            let weekly = rule.frequency is Weekly && rule.day_of_week is Some
                && rule.day_of_week->0.len() > 0;
            let by_month = (rule.frequency is Monthly || rule.frequency is Yearly)
                && rule.day_of_month is Some;
            &&& rule_text(rule) == joined(parts, ";"@)
            &&& parts[0] == "FREQ="@ + freq_name(rule.frequency)
            &&& parts.len() == 1 + if rule.interval > 1 {
                1int
            } else {
                0
            } + if weekly {
                1int
            } else {
                0
            } + if by_month {
                1int
            } else {
                0
            } + if rule.end is Some && !(rule.end->0 is Never) {
                1int
            } else {
                0
            }
            &&& rule.interval > 1 ==> parts[1] == "INTERVAL="@ + decimal(rule.interval as nat)
            &&& by_month ==> parts.contains("BYMONTHDAY="@ + decimal(rule.day_of_month->0 as nat))
            &&& weekly ==> parts.contains("BYDAY="@ + joined(letters_of(rule.day_of_week->0), ","@))
            &&& rule.end matches Some(EndRule::After { occurrences }) ==> parts.last() == "COUNT="@
                + decimal(occurrences as nat)
            &&& rule.end matches Some(EndRule::OnDate { date }) ==> parts.last() == "UNTIL="@
                + compact_text(date)
        }),
{
    let parts = written_parts(rule);
    let a = seq!["FREQ="@ + freq_name(rule.frequency)];
    let b = interval_part(rule);
    let c = by_day_part(rule);
    let d = by_month_day_part(rule);
    let e = end_part(rule);
    assert(parts =~= a + b + c + d + e);
    assert(parts[0] == a[0]);
    if b.len() > 0 {
        assert(parts[1] == b[0]);
    }
    if c.len() > 0 {
        assert(parts[1 + b.len() as int] == c[0]);
    }
    if d.len() > 0 {
        assert(parts[1 + b.len() as int + c.len() as int] == d[0]);
    }
    if e.len() > 0 {
        assert(parts.last() == e[0]);
    }
}

/// A piece that says nothing of a kind: it is of another key, or its value cannot
/// be read.
pub open spec fn is_silent(piece: Seq<char>, key: Seq<char>) -> bool {
    let (k, v) = key_and_value(piece);
    ||| k != key
    ||| key == "INTERVAL"@ && count_in(v) is None
    ||| key == "BYDAY"@ && weekdays_in(split_on(v, ',')).len() == 0
    ||| key == "BYMONTHDAY"@ && month_day_in(v) is None
    ||| key == "COUNT"@ && count_in(v) is None
    ||| key == "UNTIL"@ && until_in(v) is None
}

proof fn lemma_keys_differ()
    ensures
        "FREQ"@ != "INTERVAL"@,
        "FREQ"@ != "BYDAY"@,
        "FREQ"@ != "BYMONTHDAY"@,
        "FREQ"@ != "COUNT"@,
        "FREQ"@ != "UNTIL"@,
        "INTERVAL"@ != "BYDAY"@,
        "INTERVAL"@ != "BYMONTHDAY"@,
        "INTERVAL"@ != "COUNT"@,
        "INTERVAL"@ != "UNTIL"@,
        "BYDAY"@ != "BYMONTHDAY"@,
        "BYDAY"@ != "COUNT"@,
        "BYDAY"@ != "UNTIL"@,
        "BYMONTHDAY"@ != "COUNT"@,
        "BYMONTHDAY"@ != "UNTIL"@,
        "COUNT"@ != "UNTIL"@,
{
    reveal_strlit("FREQ");
    reveal_strlit("INTERVAL");
    reveal_strlit("BYDAY");
    reveal_strlit("BYMONTHDAY");
    reveal_strlit("COUNT");
    reveal_strlit("UNTIL");
    assert("FREQ"@.len() == 4 && "INTERVAL"@.len() == 8 && "BYMONTHDAY"@.len() == 10);
    assert("BYDAY"@.len() == 5 && "COUNT"@.len() == 5 && "UNTIL"@.len() == 5);
    assert("BYDAY"@[0] == 'B' && "COUNT"@[0] == 'C' && "UNTIL"@[0] == 'U');
}

/// All pieces from a place on say nothing of a key.
pub open spec fn are_silent(pieces: Seq<Seq<char>>, from: int, key: Seq<char>) -> bool {
    forall|j: int| from <= j < pieces.len() ==> is_silent(#[trigger] pieces[j], key)
}

proof fn lemma_silent_front(pieces: Seq<Seq<char>>, from: int, key: Seq<char>)
    requires
        pieces.len() > 0,
        0 <= from < pieces.len(),
    ensures
        are_silent(pieces, from, key) ==> are_silent(pieces.drop_last(), from, key) && is_silent(
            pieces.last(),
            key,
        ),
{
    let front = pieces.drop_last();
    assert(pieces[pieces.len() - 1] == pieces.last());
    if are_silent(pieces, from, key) {
        assert forall|j: int| from <= j < front.len() implies is_silent(#[trigger] front[j], key) by {
            assert(front[j] == pieces[j]);
        }
    }
}

proof fn lemma_all_silent_front(pieces: Seq<Seq<char>>, from: int)
    requires
        pieces.len() > 0,
        0 <= from < pieces.len(),
    ensures
        ({
            let keeps = |key: Seq<char>|
                are_silent(pieces, from, key) ==> are_silent(pieces.drop_last(), from, key)
                    && is_silent(pieces.last(), key);
            &&& keeps("FREQ"@) && keeps("INTERVAL"@) && keeps("BYDAY"@)
            &&& keeps("BYMONTHDAY"@) && keeps("COUNT"@) && keeps("UNTIL"@)
        }),
{
    lemma_silent_front(pieces, from, "FREQ"@);
    lemma_silent_front(pieces, from, "INTERVAL"@);
    lemma_silent_front(pieces, from, "BYDAY"@);
    lemma_silent_front(pieces, from, "BYMONTHDAY"@);
    lemma_silent_front(pieces, from, "COUNT"@);
    lemma_silent_front(pieces, from, "UNTIL"@);
}

/// Of several pieces of a key the last that can be read counts, whatever stands
/// between them. A frequency counts by the last piece that names one at all, and
/// an end by the last of both its kinds.
pub proof fn the_last_word_counts(pieces: Seq<Seq<char>>, i: int)
    requires
        0 <= i < pieces.len(),
    ensures
        ({
            let said = read_pieces(pieces);
            let (key, value) = key_and_value(pieces[i]);
            &&& key == "FREQ"@ && are_silent(pieces, i + 1, "FREQ"@) ==> said.frequency == frequency_in(value)
            &&& key == "INTERVAL"@ && count_in(value) is Some && are_silent(pieces, i + 1, "INTERVAL"@)
                ==> said.interval == if count_in(value) == Some(0u32) {
                1
            } else {
                count_in(value)->0
            }
            &&& key == "BYDAY"@ && weekdays_in(split_on(value, ',')).len() > 0 && are_silent(pieces, i + 1, "BYDAY"@) ==> said.day_of_week == Some(weekdays_in(split_on(value, ',')))
            &&& key == "BYMONTHDAY"@ && month_day_in(value) is Some && are_silent(pieces, i + 1, "BYMONTHDAY"@)
                ==> said.day_of_month == month_day_in(value)
            &&& key == "COUNT"@ && count_in(value) is Some && are_silent(pieces, i + 1, "COUNT"@)
                && are_silent(pieces, i + 1, "UNTIL"@) ==> said.end == Some(
                EndRule::After { occurrences: count_in(value)->0 },
            )
            &&& key == "UNTIL"@ && until_in(value) is Some && are_silent(pieces, i + 1, "COUNT"@)
                && are_silent(pieces, i + 1, "UNTIL"@) ==> said.end == Some(
                EndRule::OnDate { date: until_in(value)->0 },
            )
        }),
    decreases pieces.len(),
{
    lemma_keys_differ();
    let front = pieces.drop_last();
    let last = pieces.len() - 1;
    assert(pieces[last] == pieces.last());
    if i < last {
        the_last_word_counts(front, i);
        assert(front[i] == pieces[i]);
        lemma_all_silent_front(pieces, i + 1);
    }
}

/// Without a piece that says something of a kind, a rule repeats each time, names
/// no days and has no end; without a frequency there is no rule.
pub proof fn what_is_not_said_is_left_open(pieces: Seq<Seq<char>>)
    ensures
        ({
            let said = read_pieces(pieces);
            &&& are_silent(pieces, 0, "FREQ"@) ==> said.frequency is None
            &&& are_silent(pieces, 0, "INTERVAL"@) ==> said.interval == 1
            &&& are_silent(pieces, 0, "BYDAY"@) ==> said.day_of_week is None
            &&& are_silent(pieces, 0, "BYMONTHDAY"@) ==> said.day_of_month is None
            &&& are_silent(pieces, 0, "COUNT"@) && are_silent(pieces, 0, "UNTIL"@) ==> said.end is None
        }),
    decreases pieces.len(),
{
    lemma_keys_differ();
    if pieces.len() > 0 {
        let front = pieces.drop_last();
        let last = pieces.len() - 1;
        assert(pieces[last] == pieces.last());
        what_is_not_said_is_left_open(front);
        lemma_all_silent_front(pieces, 0);
    }
}

/// The rule a text says is what its pieces say: there is one exactly where they
/// name a frequency, and weekdays are kept on a weekly one only.
pub proof fn a_rule_says_what_its_pieces_say(rrule: Seq<char>)
    ensures
        ({
            let said = read_pieces(split_on(rule_body(rrule), ';'));
            let rule = read_rule(rrule);
            &&& rule is Some <==> said.frequency is Some
            &&& rule is Some ==> {
                &&& said.frequency == Some(rule->0.frequency)
                &&& rule->0.interval == said.interval
                &&& rule->0.frequency is Weekly ==> rule->0.day_of_week == said.day_of_week
                &&& !(rule->0.frequency is Weekly) ==> rule->0.day_of_week is None
                &&& rule->0.day_of_month == said.day_of_month
                &&& rule->0.end == said.end
            }
        }),
{
}

} // verus!
