//! What the sentence for a repeat rule promises: it says all of the rule and
//! nothing else, and a rule is said exactly where it can be.

use vstd::prelude::*;

use crate::civil::{read_date, Ymd};
use crate::recurrence_summary::{
    days_in_order, end_said, every_said, lists_day, lists_month_day, month_day_token,
    month_days_in_order, month_days_said, nth_weekday_said, on_daily, on_monthly, on_said,
    on_weekly, on_yearly, plain_days, plain_refusal, plain_refusals, set_position_said, summary_of,
    unit_of, weekend, whole_week, workdays, yearly_month, DaySet, OnText, PhraseText, QuestionText,
    RepeatUnit, SummaryText, UndescribedReason,
};
use crate::rrule_parts::{
    freq_in, interval_in, rule_parts, value_of, weekday_token_in, Freq, PartText,
};
use crate::text::{
    is_blank, lemma_split_some, signed_in, split_on, trimmed, unsigned_in, uppercase, Blank,
};
use crate::types::{weekday_at, Weekday};

verus! {

// ---------------------------------------------------------------------------
// Words
// ---------------------------------------------------------------------------

/// A phrase with this key and no values.
pub open spec fn no_values(name: Seq<char>) -> PhraseText {
    PhraseText {
        key: "recurrenceSummary."@ + name,
        count: None,
        weekdays: Seq::empty(),
        weekday: None,
        ordinal: None,
        month_days: Seq::empty(),
        month: None,
        date: None,
        set: None,
    }
}

/// The unit a rule of this frequency repeats in, by its name.
pub open spec fn name_of_unit(freq: Freq) -> Seq<char> {
    match freq {
        Freq::Secondly => "second"@,
        Freq::Minutely => "minute"@,
        Freq::Hourly => "hour"@,
        Freq::Daily => "day"@,
        Freq::Weekly => "week"@,
        Freq::Monthly => "month"@,
        Freq::Yearly => "year"@,
    }
}

/// The unit that is kept where there is no sentence.
pub open spec fn unit_for_freq(freq: Freq) -> RepeatUnit {
    match freq {
        Freq::Secondly => RepeatUnit::Second,
        Freq::Minutely => RepeatUnit::Minute,
        Freq::Hourly => RepeatUnit::Hour,
        Freq::Daily => RepeatUnit::Day,
        Freq::Weekly => RepeatUnit::Week,
        Freq::Monthly => RepeatUnit::Month,
        Freq::Yearly => RepeatUnit::Year,
    }
}

/// How often, in words: once a unit, or every so many of them.
pub open spec fn says_how_often(every: PhraseText, freq: Freq, interval: u32) -> bool {
    if interval == 1 {
        every == no_values("every."@ + name_of_unit(freq))
    } else {
        every == PhraseText {
            count: Some(interval),
            ..no_values("interval."@ + name_of_unit(freq))
        }
    }
}

/// Some tokens are plain weekdays, and a list is the set of them, Monday first.
pub open spec fn are_weekdays(tokens: Seq<Seq<char>>, days: Seq<Weekday>) -> bool {
    &&& forall|k: int|
        0 <= k < tokens.len() ==> (weekday_token_in(#[trigger] tokens[k]) matches Some((None, day))
            && days.contains(day))
    &&& forall|i: int|
        0 <= i < days.len() ==> names_day(tokens, #[trigger] days[i])
    &&& forall|i: int, j: int|
        0 <= i < j < days.len() ==> (#[trigger] days[i]).place() < (#[trigger] days[j]).place()
}

/// One of the tokens names the day, without an ordinal.
pub open spec fn names_day(tokens: Seq<Seq<char>>, day: Weekday) -> bool {
    exists|k: int|
        0 <= k < tokens.len() && weekday_token_in(#[trigger] tokens[k]) == Some((None::<i8>, day))
}

/// The week's working days, and its weekend.
pub open spec fn are_working_days(days: Seq<Weekday>) -> bool {
    forall|day: Weekday| #[trigger] days.contains(day) <==> day.place() <= 4
}

pub open spec fn are_weekend_days(days: Seq<Weekday>) -> bool {
    forall|day: Weekday| #[trigger] days.contains(day) <==> day.place() >= 5
}

pub open spec fn are_all_days(days: Seq<Weekday>) -> bool {
    forall|day: Weekday| #[trigger] days.contains(day)
}

/// "Every Monday and Wednesday", in words.
pub open spec fn says_every_week_on(every: PhraseText, days: Seq<Weekday>) -> bool {
    if are_working_days(days) {
        every == no_values("weekly.workdays"@)
    } else {
        every == PhraseText { weekdays: days, ..no_values("weekly.onDays"@) }
    }
}

/// Some tokens are days of the month counted from its start, and a list is the
/// set of them, in order.
pub open spec fn are_month_days(tokens: Seq<Seq<char>>, days: Seq<u8>) -> bool {
    &&& forall|k: int|
        0 <= k < tokens.len() ==> (signed_in(trimmed(#[trigger] tokens[k], Blank::Unicode)) matches Some(
            n,
        ) && 1 <= n <= 31 && days.contains(n as u8))
    &&& forall|i: int| 0 <= i < days.len() ==> names_month_day(tokens, #[trigger] days[i] as int)
    &&& forall|i: int, j: int|
        0 <= i < j < days.len() ==> (#[trigger] days[i]) < (#[trigger] days[j])
}

/// One of the tokens is this day of the month.
pub open spec fn names_month_day(tokens: Seq<Seq<char>>, day: int) -> bool {
    exists|k: int|
        0 <= k < tokens.len() && signed_in(trimmed(#[trigger] tokens[k], Blank::Unicode)) == Some(
            day,
        )
}

/// All the tokens are the last day of the month.
pub open spec fn are_last_days(tokens: Seq<Seq<char>>) -> bool {
    forall|k: int|
        0 <= k < tokens.len() ==> signed_in(trimmed(#[trigger] tokens[k], Blank::Unicode)) == Some(
            -1int,
        )
}

/// Days of the month, in words.
pub open spec fn says_month_days(on: PhraseText, value: Seq<char>) -> bool {
    let tokens = split_on(value, ',');
    ||| are_last_days(tokens) && on == no_values("on.lastDay"@)
    ||| !are_last_days(tokens) && are_month_days(tokens, on.month_days) && on == PhraseText {
        count: Some(on.month_days.len() as u32),
        month_days: on.month_days,
        ..no_values("on.monthDay"@)
    }
}

/// A position that has a word: the first five, and the last.
pub open spec fn has_a_word(position: int) -> bool {
    1 <= position <= 5 || position == -1
}

/// "The second Tuesday", in words under this key.
pub open spec fn says_nth_weekday(on: PhraseText, value: Seq<char>, name: Seq<char>) -> bool {
    let tokens = split_on(value, ',');
    &&& tokens.len() == 1
    &&& weekday_token_in(tokens[0]) matches Some((Some(ordinal), day)) && has_a_word(
        ordinal as int,
    ) && on == PhraseText { ordinal: Some(ordinal), weekday: Some(day), month: on.month, ..no_values(name) }
}

/// "The last workday", in words; over the whole week it is a day of the month.
pub open spec fn says_nth_of_set(on: PhraseText, days: Seq<char>, set_pos: Seq<char>) -> bool {
    let positions = split_on(set_pos, ',');
    &&& positions.len() == 1
    &&& signed_in(trimmed(positions[0], Blank::Unicode)) matches Some(position) && has_a_word(
        position,
    ) && exists|list: Seq<Weekday>| #[trigger]
        are_weekdays(split_on(days, ','), list) && if are_all_days(list) {
            if position == -1 {
                on == PhraseText { month: on.month, ..no_values("on.lastDay"@) }
            } else {
                on == PhraseText {
                    count: Some(1),
                    month_days: seq![position as u8],
                    month: on.month,
                    ..no_values("on.monthDay"@)
                }
            }
        } else {
            on == PhraseText {
                ordinal: Some(position as i8),
                set: on.set,
                month: on.month,
                ..no_values("on.nthOfSet"@)
            } && if are_working_days(list) {
                on.set == Some(DaySet::Weekday)
            } else {
                are_weekend_days(list) && on.set == Some(DaySet::WeekendDay)
            }
        }
}

// ---------------------------------------------------------------------------
// Weekdays and days of the month in order
// ---------------------------------------------------------------------------

proof fn lemma_days_in_order(tokens: Seq<Seq<char>>, n: int)
    requires
        0 <= n <= 7,
    ensures
        forall|i: int|
            0 <= i < days_in_order(tokens, n).len() ==> lists_day(
                tokens,
                #[trigger] days_in_order(tokens, n)[i],
            ) && days_in_order(tokens, n)[i].place() < n,
        forall|i: int, j: int|
            0 <= i < j < days_in_order(tokens, n).len() ==> (
            #[trigger] days_in_order(tokens, n)[i]).place() < (
            #[trigger] days_in_order(tokens, n)[j]).place(),
        forall|day: Weekday|
            day.place() < n && lists_day(tokens, day) ==> #[trigger] days_in_order(
                tokens,
                n,
            ).contains(day),
    decreases n,
{
    if n > 0 {
        lemma_days_in_order(tokens, n - 1);
        let before = days_in_order(tokens, n - 1);
        let all = days_in_order(tokens, n);
        let last = weekday_at(n - 1);
        assert(last.place() == n - 1);
        assert forall|day: Weekday| day.place() < n && lists_day(tokens, day) implies #[trigger] all.contains(
            day,
        ) by {
            if day.place() < n - 1 {
                assert(before.contains(day));
                let i = choose|i: int| 0 <= i < before.len() && before[i] == day;
                assert(all[i] == day);
            } else {
                assert(day == last);
                assert(all[before.len() as int] == last);
            }
        }
        assert forall|i: int| 0 <= i < all.len() implies lists_day(tokens, #[trigger] all[i])
            && all[i].place() < n by {
            if i < before.len() {
                assert(all[i] == before[i]);
            }
        }
        assert forall|i: int, j: int| 0 <= i < j < all.len() implies (#[trigger] all[i]).place()
            < (#[trigger] all[j]).place() by {
            assert(all[i] == before[i]);
            if j < before.len() {
                assert(all[j] == before[j]);
            }
        }
    }
}

proof fn lemma_plain_tokens(tokens: Seq<Seq<char>>)
    ensures
        plain_refusals(tokens) is None <==> forall|k: int|
            0 <= k < tokens.len() ==> weekday_token_in(#[trigger] tokens[k]) matches Some((None, _)),
    decreases tokens.len(),
{
    if tokens.len() > 0 {
        let front = tokens.drop_last();
        lemma_plain_tokens(front);
        if plain_refusals(tokens) is None {
            assert forall|k: int| 0 <= k < tokens.len() implies weekday_token_in(
                #[trigger] tokens[k],
            ) matches Some((None, _)) by {
                if k < front.len() {
                    assert(front[k] == tokens[k]);
                }
            }
        }
        if forall|k: int|
            0 <= k < tokens.len() ==> weekday_token_in(#[trigger] tokens[k]) matches Some(
                (None, _),
            ) {
            assert forall|k: int| 0 <= k < front.len() implies weekday_token_in(
                #[trigger] front[k],
            ) matches Some((None, _)) by {
                assert(front[k] == tokens[k]);
            }
            assert(weekday_token_in(tokens[tokens.len() - 1]) matches Some((None, _)));
        }
    }
}

proof fn lemma_place(day: Weekday)
    ensures
        0 <= day.place() <= 6,
        weekday_at(day.place()) == day,
{
}

proof fn lemma_plain_days(value: Seq<char>)
    ensures
        plain_days(value) matches Ok(days) ==> are_weekdays(split_on(value, ','), days),
        plain_days(value) is Err ==> !exists|days: Seq<Weekday>| #[trigger]
            are_weekdays(split_on(value, ','), days),
{
    let tokens = split_on(value, ',');
    lemma_plain_tokens(tokens);
    lemma_days_in_order(tokens, 7);
    if let Ok(days) = plain_days(value) {
        assert forall|k: int| 0 <= k < tokens.len() implies (weekday_token_in(
            #[trigger] tokens[k],
        ) matches Some((None, day)) && days.contains(day)) by {
            let day = weekday_token_in(tokens[k]).unwrap().1;
            lemma_place(day);
            assert(lists_day(tokens, day));
        }
        assert forall|i: int| 0 <= i < days.len() implies names_day(tokens, #[trigger] days[i]) by {
            assert(lists_day(tokens, days[i]));
        }
    } else {
        assert forall|days: Seq<Weekday>| !#[trigger] are_weekdays(tokens, days) by {
            if are_weekdays(tokens, days) {
                assert forall|k: int| 0 <= k < tokens.len() implies weekday_token_in(
                    #[trigger] tokens[k],
                ) matches Some((None, _)) by {}
            }
        }
    }
}

/// Two lists of the same days, both in the week's order, are one.
proof fn lemma_same_days(a: Seq<Weekday>, b: Seq<Weekday>)
    requires
        forall|i: int, j: int|
            0 <= i < j < a.len() ==> (#[trigger] a[i]).place() < (#[trigger] a[j]).place(),
        forall|i: int, j: int|
            0 <= i < j < b.len() ==> (#[trigger] b[i]).place() < (#[trigger] b[j]).place(),
        forall|day: Weekday| a.contains(day) <==> b.contains(day),
    ensures
        a == b,
    decreases a.len(),
{
    if a.len() == 0 {
        if b.len() > 0 {
            assert(b.contains(b[0]));
            assert(a.contains(b[0]));
        }
        assert(a =~= b);
    } else {
        let x = a[a.len() - 1];
        assert(a.contains(x));
        assert(b.contains(x));
        let y = b[b.len() - 1];
        assert(b.contains(y));
        assert(a.contains(y));
        let at = choose|i: int| 0 <= i < b.len() && b[i] == x;
        let to = choose|i: int| 0 <= i < a.len() && a[i] == y;
        assert(x == y);
        let c = a.drop_last();
        let d = b.drop_last();
        assert forall|day: Weekday| c.contains(day) <==> d.contains(day) by {
            if c.contains(day) {
                let i = choose|i: int| 0 <= i < c.len() && c[i] == day;
                assert(a[i] == day && a[i].place() < a[a.len() - 1].place());
                assert(a.contains(day));
                assert(b.contains(day));
                let j = choose|j: int| 0 <= j < b.len() && b[j] == day;
                assert(d[j] == day);
            }
            if d.contains(day) {
                let i = choose|i: int| 0 <= i < d.len() && d[i] == day;
                assert(b[i] == day && b[i].place() < b[b.len() - 1].place());
                assert(b.contains(day));
                assert(a.contains(day));
                let j = choose|j: int| 0 <= j < a.len() && a[j] == day;
                assert(c[j] == day);
            }
        }
        lemma_same_days(c, d);
        assert(a =~= c.push(x));
        assert(b =~= d.push(y));
    }
}

proof fn lemma_sets(days: Seq<Weekday>)
    requires
        forall|i: int, j: int|
            0 <= i < j < days.len() ==> (#[trigger] days[i]).place() < (#[trigger] days[j]).place(),
    ensures
        days == workdays() <==> are_working_days(days),
        days == weekend() <==> are_weekend_days(days),
        days == whole_week() <==> are_all_days(days),
{
    let work = workdays();
    let rest = weekend();
    let week = whole_week();
    assert(work[0] is Monday && work[1] is Tuesday && work[2] is Wednesday && work[3] is Thursday
        && work[4] is Friday);
    assert(rest[0] is Saturday && rest[1] is Sunday);
    assert(week[0] is Monday && week[1] is Tuesday && week[2] is Wednesday && week[3] is Thursday
        && week[4] is Friday && week[5] is Saturday && week[6] is Sunday);
    assert(are_working_days(work)) by {
        assert forall|day: Weekday| #[trigger] work.contains(day) <==> day.place() <= 4 by {
            lemma_place(day);
            if day.place() <= 4 {
                assert(work[day.place()] == day);
            }
        }
    }
    assert(are_weekend_days(rest)) by {
        assert forall|day: Weekday| #[trigger] rest.contains(day) <==> day.place() >= 5 by {
            lemma_place(day);
            if day.place() >= 5 {
                assert(rest[day.place() - 5] == day);
            }
        }
    }
    assert(are_all_days(week)) by {
        assert forall|day: Weekday| #[trigger] week.contains(day) by {
            lemma_place(day);
            assert(week[day.place()] == day);
        }
    }
    if are_working_days(days) {
        assert forall|day: Weekday| days.contains(day) <==> work.contains(day) by {}
        lemma_same_days(days, work);
    }
    if are_weekend_days(days) {
        assert forall|day: Weekday| days.contains(day) <==> rest.contains(day) by {}
        lemma_same_days(days, rest);
    }
    if are_all_days(days) {
        assert forall|day: Weekday| days.contains(day) <==> week.contains(day) by {}
        lemma_same_days(days, week);
    }
}

proof fn lemma_month_days_in_order(tokens: Seq<Seq<char>>, n: int)
    requires
        0 <= n <= 31,
    ensures
        month_days_in_order(tokens, n).len() <= n,
        forall|i: int|
            0 <= i < month_days_in_order(tokens, n).len() ==> lists_month_day(
                tokens,
                #[trigger] month_days_in_order(tokens, n)[i] as int,
            ) && 1 <= month_days_in_order(tokens, n)[i] <= n,
        forall|i: int, j: int|
            0 <= i < j < month_days_in_order(tokens, n).len() ==> (
            #[trigger] month_days_in_order(tokens, n)[i]) < (
            #[trigger] month_days_in_order(tokens, n)[j]),
        forall|day: u8|
            1 <= day <= n && lists_month_day(tokens, day as int)
                ==> #[trigger] month_days_in_order(tokens, n).contains(day),
    decreases n,
{
    if n > 0 {
        lemma_month_days_in_order(tokens, n - 1);
        let before = month_days_in_order(tokens, n - 1);
        let all = month_days_in_order(tokens, n);
        assert forall|day: u8|
            1 <= day <= n && lists_month_day(tokens, day as int) implies #[trigger] all.contains(
            day,
        ) by {
            if day < n {
                assert(before.contains(day));
                let i = choose|i: int| 0 <= i < before.len() && before[i] == day;
                assert(all[i] == day);
            } else {
                assert(all[before.len() as int] == day);
            }
        }
        assert forall|i: int| 0 <= i < all.len() implies lists_month_day(
            tokens,
            #[trigger] all[i] as int,
        ) && 1 <= all[i] <= n by {
            if i < before.len() {
                assert(all[i] == before[i]);
            }
        }
        assert forall|i: int, j: int| 0 <= i < j < all.len() implies (#[trigger] all[i]) < (
        #[trigger] all[j]) by {
            assert(all[i] == before[i]);
            if j < before.len() {
                assert(all[j] == before[j]);
            }
        }
    }
}

/// Some tokens are days of the month: each counted from its start, or all of
/// them its last.
pub open spec fn can_say_month_days(value: Seq<char>) -> bool {
    let tokens = split_on(value, ',');
    ||| are_last_days(tokens)
    ||| forall|k: int|
        0 <= k < tokens.len() ==> (signed_in(
            trimmed(#[trigger] tokens[k], Blank::Unicode),
        ) matches Some(n) && 1 <= n <= 31)
}

proof fn lemma_month_days(value: Seq<char>)
    ensures
        month_days_said(value) matches Ok(on) ==> says_month_days(on, value),
        month_days_said(value) is Ok <==> can_say_month_days(value),
{
    let tokens = split_on(value, ',');
    lemma_split_some(value, ',');
    lemma_month_days_in_order(tokens, 31);
    let days = month_days_in_order(tokens, 31);
    let readable = !exists|i: int|
        0 <= i < tokens.len() && month_day_token(#[trigger] tokens[i]) is None;
    let last = forall|i: int|
        0 <= i < tokens.len() ==> month_day_token(#[trigger] tokens[i]) == Some(-1int);
    let mixed = exists|i: int|
        0 <= i < tokens.len() && (month_day_token(#[trigger] tokens[i])->0) < 0;
    if last {
        assert forall|k: int| 0 <= k < tokens.len() implies signed_in(
            trimmed(#[trigger] tokens[k], Blank::Unicode),
        ) == Some(-1int) by {
            assert(month_day_token(tokens[k]) == Some(-1int));
        }
    }
    if are_last_days(tokens) {
        assert forall|i: int| 0 <= i < tokens.len() implies month_day_token(#[trigger] tokens[i])
            == Some(-1int) by {}
    }
    if readable && !mixed {
        assert forall|k: int| 0 <= k < tokens.len() implies (signed_in(
            trimmed(#[trigger] tokens[k], Blank::Unicode),
        ) matches Some(n) && 1 <= n <= 31 && days.contains(n as u8)) by {
            assert(month_day_token(tokens[k]) is Some);
            let n = month_day_token(tokens[k])->0;
            assert(!(n < 0));
            assert(lists_month_day(tokens, (n as u8) as int));
        }
        assert forall|i: int| 0 <= i < days.len() implies names_month_day(
            tokens,
            #[trigger] days[i] as int,
        ) by {
            assert(lists_month_day(tokens, days[i] as int));
            let k = choose|k: int|
                0 <= k < tokens.len() && month_day_token(#[trigger] tokens[k]) == Some(
                    days[i] as int,
                );
            assert(signed_in(trimmed(tokens[k], Blank::Unicode)) == Some(days[i] as int));
        }
        assert(are_month_days(tokens, days));
    }
    if forall|k: int|
        0 <= k < tokens.len() ==> (signed_in(
            trimmed(#[trigger] tokens[k], Blank::Unicode),
        ) matches Some(n) && 1 <= n <= 31) {
        assert forall|i: int| 0 <= i < tokens.len() implies (month_day_token(
            #[trigger] tokens[i],
        ) matches Some(n) && n > 0) by {}
        assert(readable && !mixed);
    }
    if month_days_said(value) is Ok && !last {
        assert(readable && !mixed);
    }
}

// ---------------------------------------------------------------------------
// The law
// ---------------------------------------------------------------------------

/// The day the series starts, where it can be read.
pub open spec fn starts_on(start: Seq<char>) -> Option<Ymd> {
    read_date(trimmed(start, Blank::Unicode), "%Y-%m-%d"@)
}

/// A monthly rule and what is said of its days.
pub open spec fn says_monthly(parts: Seq<PartText>, start: Seq<char>, on: PhraseText) -> bool {
    match (value_of(parts, "BYSETPOS"@), value_of(parts, "BYMONTHDAY"@), value_of(parts, "BYDAY"@)) {
        (Some(set_pos), None, Some(days)) => on.month is None && says_nth_of_set(
            on,
            days,
            set_pos,
        ),
        (None, Some(value), None) => says_month_days(on, value),
        (None, None, Some(value)) => on.month is None && says_nth_weekday(
            on,
            value,
            "on.nthWeekday"@,
        ),
        (None, None, None) => starts_on(start) matches Some(day) && on == PhraseText {
            count: Some(1),
            month_days: seq![day.day as u8],
            ..no_values("on.monthDay"@)
        },
        _ => false,
    }
}

/// One month, by its number.
pub open spec fn is_one_month(value: Seq<char>, month: u8) -> bool {
    let months = split_on(value, ',');
    &&& months.len() == 1
    &&& 1 <= month <= 12
    &&& unsigned_in(trimmed(months[0], Blank::Unicode)) == Some(month as nat)
}

/// A yearly rule and what is said of its days.
pub open spec fn says_yearly(parts: Seq<PartText>, start: Seq<char>, on: PhraseText) -> bool {
    let month = value_of(parts, "BYMONTH"@);
    match (value_of(parts, "BYSETPOS"@), value_of(parts, "BYMONTHDAY"@), value_of(parts, "BYDAY"@)) {
        (Some(set_pos), None, Some(days)) => month is Some && on.month is Some && is_one_month(
            month->0,
            on.month->0,
        ) && says_nth_of_set(on, days, set_pos),
        (None, None, Some(value)) => month is Some && on.month is Some && is_one_month(
            month->0,
            on.month->0,
        ) && says_nth_weekday(on, value, "on.nthWeekdayInMonth"@),
        (None, day, None) => {
            &&& on.month is Some
            &&& on.month_days.len() == 1
            &&& on == PhraseText {
                month: on.month,
                month_days: on.month_days,
                ..no_values("on.dateInYear"@)
            }
            &&& match month {
                Some(value) => is_one_month(value, on.month->0),
                None => starts_on(start) matches Some(day) && on.month->0 == day.month as u8,
            }
            &&& match day {
                Some(value) => split_on(value, ',').len() == 1 && signed_in(
                    trimmed(split_on(value, ',')[0], Blank::Unicode),
                ) == Some(on.month_days[0] as int) && 1 <= on.month_days[0] <= 31,
                None => starts_on(start) matches Some(day) && on.month_days[0] == day.day as u8,
            }
        },
        _ => false,
    }
}

/// Whether a rule of weeks says which of them count.
pub open spec fn weeks_are_plain(parts: Seq<PartText>, interval: u32, days: Seq<Weekday>) -> bool {
    interval == 1 || days.len() <= 1 || match value_of(parts, "WKST"@) {
        Some(first) => uppercase(trimmed(first, Blank::Unicode)) == "MO"@,
        None => true,
    }
}

/// What the rule's own words say of its days and how often they come.
pub open spec fn says_the_days(
    parts: Seq<PartText>,
    start: Seq<char>,
    freq: Freq,
    interval: u32,
    every: PhraseText,
    on: Option<PhraseText>,
) -> bool {
    let by_day = value_of(parts, "BYDAY"@);
    let by_month_day = value_of(parts, "BYMONTHDAY"@);
    let set_pos = value_of(parts, "BYSETPOS"@);
    &&& value_of(parts, "BYMONTH"@) is Some ==> freq is Yearly
    &&& match freq {
        Freq::Secondly | Freq::Minutely | Freq::Hourly => by_day is None && by_month_day is None
            && set_pos is None && on is None && says_how_often(every, freq, interval),
        Freq::Daily => by_month_day is None && set_pos is None && on is None && match by_day {
            None => says_how_often(every, freq, interval),
            Some(value) => interval == 1 && exists|days: Seq<Weekday>| #[trigger]
                are_weekdays(split_on(value, ','), days) && says_every_week_on(every, days),
        },
        Freq::Weekly => by_month_day is None && set_pos is None && exists|days: Seq<Weekday>|
            #[trigger]
            are_days_of(by_day, start, days) && weeks_are_plain(parts, interval, days) && if interval
                == 1 {
                on is None && says_every_week_on(every, days)
            } else {
                says_how_often(every, freq, interval) && on == Some(
                    PhraseText { weekdays: days, ..no_values("on.weekdays"@) },
                )
            },
        Freq::Monthly => says_how_often(every, freq, interval) && on is Some && says_monthly(
            parts,
            start,
            on->0,
        ),
        Freq::Yearly => says_how_often(every, freq, interval) && on is Some && says_yearly(
            parts,
            start,
            on->0,
        ),
    }
}

/// The days of a weekly rule: those it names, or the one it starts on.
pub open spec fn are_days_of(
    by_day: Option<Seq<char>>,
    start: Seq<char>,
    days: Seq<Weekday>,
) -> bool {
    match by_day {
        Some(value) => are_weekdays(split_on(value, ','), days),
        None => starts_on(start) matches Some(day) && days.len() == 1 && days[0].place()
            == day.weekday(),
    }
}

/// What is said of the end: the count of the rule, the last day where it is
/// known, that there is an end, or nothing where there is none.
pub open spec fn says_the_end(
    parts: Seq<PartText>,
    last_day: Option<Seq<char>>,
    end: Option<PhraseText>,
) -> bool {
    match (value_of(parts, "COUNT"@), value_of(parts, "UNTIL"@)) {
        (None, None) => end is None,
        (Some(count), None) => unsigned_in(count) matches Some(n) && 0 < n <= u32::MAX && end
            == Some(PhraseText { count: Some(n as u32), ..no_values("end.count"@) }),
        (None, Some(_)) => if last_day matches Some(day) && !is_blank(day, Blank::Unicode) {
            end == Some(
                PhraseText {
                    date: Some(trimmed(last_day->0, Blank::Unicode)),
                    ..no_values("end.lastOn"@)
                },
            )
        } else {
            end == Some(no_values("end.bounded"@))
        },
        (Some(_), Some(_)) => false,
    }
}

/// A part the sentence has room for.
pub open spec fn has_room_for(key: Seq<char>) -> bool {
    key == "FREQ"@ || key == "INTERVAL"@ || key == "COUNT"@ || key == "UNTIL"@ || key == "BYDAY"@
        || key == "BYMONTHDAY"@ || key == "BYMONTH"@ || key == "BYSETPOS"@ || key == "WKST"@
}

proof fn lemma_nth_weekday(value: Seq<char>)
    ensures
        nth_weekday_said(value) matches Ok(on) ==> on.month is None && says_nth_weekday(
            on,
            value,
            "on.nthWeekday"@,
        ),
        nth_weekday_said(value) is Ok <==> split_on(value, ',').len() == 1 && (weekday_token_in(
            split_on(value, ',')[0],
        ) matches Some((Some(ordinal), _)) && has_a_word(ordinal as int)),
{
    lemma_split_some(value, ',');
}

/// A position within a set of days that can be said.
pub open spec fn can_say_nth_of_set(days: Seq<char>, set_pos: Seq<char>) -> bool {
    let positions = split_on(set_pos, ',');
    &&& positions.len() == 1
    &&& signed_in(trimmed(positions[0], Blank::Unicode)) matches Some(position) && has_a_word(
        position,
    ) && exists|list: Seq<Weekday>| #[trigger]
        are_weekdays(split_on(days, ','), list) && (are_all_days(list) || are_working_days(list)
            || are_weekend_days(list))
}

proof fn lemma_nth_of_set(days: Seq<char>, set_pos: Seq<char>)
    ensures
        set_position_said(days, set_pos) matches Ok(on) ==> on.month is None && says_nth_of_set(
            on,
            days,
            set_pos,
        ) && forall|month: Option<u8>| #[trigger]
            says_nth_of_set(PhraseText { month, ..on }, days, set_pos),
        set_position_said(days, set_pos) is Ok <==> can_say_nth_of_set(days, set_pos),
{
    lemma_split_some(set_pos, ',');
    lemma_plain_days(days);
    let positions = split_on(set_pos, ',');
    if let Ok(list) = plain_days(days) {
        lemma_sets(list);
        assert(are_weekdays(split_on(days, ','), list));
        if let Ok(on) = set_position_said(days, set_pos) {
            if list == workdays() || list == weekend() {
                assert(are_working_days(list) || are_weekend_days(list));
                assert(!are_all_days(list)) by {
                    assert(list != whole_week());
                }
            }
        }
    }
    if can_say_nth_of_set(days, set_pos) {
        let list = choose|list: Seq<Weekday>| #[trigger]
            are_weekdays(split_on(days, ','), list) && (are_all_days(list) || are_working_days(list)
                || are_weekend_days(list));
        let own = plain_days(days)->Ok_0;
        assert forall|day: Weekday| list.contains(day) <==> own.contains(day) by {
            if list.contains(day) {
                lemma_same_set(split_on(days, ','), list, own, day);
            }
            if own.contains(day) {
                lemma_same_set(split_on(days, ','), own, list, day);
            }
        }
        lemma_same_days(list, own);
    }
}

proof fn lemma_same_set(tokens: Seq<Seq<char>>, a: Seq<Weekday>, b: Seq<Weekday>, day: Weekday)
    requires
        are_weekdays(tokens, a),
        are_weekdays(tokens, b),
        a.contains(day),
    ensures
        b.contains(day),
{
    let i = choose|i: int| 0 <= i < a.len() && a[i] == day;
    assert(names_day(tokens, a[i]));
    let k = choose|k: int|
        0 <= k < tokens.len() && weekday_token_in(#[trigger] tokens[k]) == Some(
            (None::<i8>, day),
        );
    assert(b.contains(weekday_token_in(tokens[k]).unwrap().1));
}

/// The sentence says the rule, all of it and nothing else: how often it comes,
/// with the interval where it is more than one; on which days, as the set the
/// rule lists or as the start gives them; and how it ends. The key names the
/// halves there are, and no part of the rule is left without words.
pub proof fn the_sentence_says_the_rule(
    question: QuestionText,
    key: Seq<char>,
    every: PhraseText,
    on: Option<PhraseText>,
    end: Option<PhraseText>,
)
    requires
        summary_of(question) == (SummaryText::Described { key, every, on, end }),
    ensures
        ({
            let parts = rule_parts(question.rrule).unwrap().1;
            let freq = freq_in(value_of(parts, "FREQ"@)->0)->0;
            let interval = interval_in(value_of(parts, "INTERVAL"@))->0;
            &&& rule_parts(question.rrule) is Some
            &&& value_of(parts, "FREQ"@) is Some
            &&& freq_in(value_of(parts, "FREQ"@)->0) is Some
            &&& interval_in(value_of(parts, "INTERVAL"@)) is Some
            &&& forall|i: int| 0 <= i < parts.len() ==> has_room_for((#[trigger] parts[i]).key)
            &&& says_the_end(parts, question.last_day, end)
            &&& says_the_days(parts, question.start, freq, interval, every, on)
            &&& key == "recurrenceSummary."@ + if on is None && end is None {
                "sentence.every"@
            } else if end is None {
                "sentence.everyOn"@
            } else if on is None {
                "sentence.everyEnd"@
            } else {
                "sentence.everyOnEnd"@
            }
        }),
{
    let parts = rule_parts(question.rrule).unwrap().1;
    let freq = freq_in(value_of(parts, "FREQ"@)->0)->0;
    let interval = interval_in(value_of(parts, "INTERVAL"@))->0;
    let often = every_said(unit_of(freq), interval);
    assert(says_how_often(often, freq, interval));
    lemma_on_said(parts, question.start, freq, interval, often);
}

/// What is said of the days is what the rule says of them, and it is said
/// exactly where it can be.
proof fn lemma_on_said(
    parts: Seq<PartText>,
    start: Seq<char>,
    freq: Freq,
    interval: u32,
    every: PhraseText,
)
    requires
        says_how_often(every, freq, interval),
        interval >= 1,
    ensures
        on_is_right(parts, start, freq, interval, every, on_said(parts, start, freq, interval)),
        on_said(parts, start, freq, interval) is Ok <==> can_say_the_days(
            parts,
            start,
            freq,
            interval,
        ),
{
    if value_of(parts, "BYMONTH"@) is Some && !(freq is Yearly) {
    } else if freq is Daily {
        lemma_on_daily(parts, start, interval, every);
    } else if freq is Weekly {
        lemma_on_weekly(parts, start, interval, every);
    } else if freq is Monthly {
        lemma_on_monthly(parts, start, interval, every);
    } else if freq is Yearly {
        lemma_on_yearly(parts, start, interval, every);
    }
}

/// What was found to say fits the rule.
spec fn on_is_right(
    parts: Seq<PartText>,
    start: Seq<char>,
    freq: Freq,
    interval: u32,
    every: PhraseText,
    said: Result<OnText, UndescribedReason>,
) -> bool {
    match said {
        Ok(OnText::Replaces(phrase)) => says_the_days(parts, start, freq, interval, phrase, None),
        Ok(OnText::Beside(phrase)) => says_the_days(
            parts,
            start,
            freq,
            interval,
            every,
            Some(phrase),
        ),
        Ok(OnText::Nothing) => says_the_days(parts, start, freq, interval, every, None),
        Err(_) => true,
    }
}

/// There is one list of the days some tokens name.
proof fn lemma_one_list(tokens: Seq<Seq<char>>, a: Seq<Weekday>, b: Seq<Weekday>)
    requires
        are_weekdays(tokens, a),
        are_weekdays(tokens, b),
    ensures
        a == b,
{
    assert forall|day: Weekday| a.contains(day) <==> b.contains(day) by {
        if a.contains(day) {
            lemma_same_set(tokens, a, b, day);
        }
        if b.contains(day) {
            lemma_same_set(tokens, b, a, day);
        }
    }
    lemma_same_days(a, b);
}

proof fn lemma_on_daily(parts: Seq<PartText>, start: Seq<char>, interval: u32, every: PhraseText)
    requires
        value_of(parts, "BYMONTH"@) is None,
        says_how_often(every, Freq::Daily, interval),
    ensures
        on_is_right(parts, start, Freq::Daily, interval, every, on_daily(parts, interval)),
        on_daily(parts, interval) is Ok <==> can_say_the_days(parts, start, Freq::Daily, interval),
{
    if let Some(value) = value_of(parts, "BYDAY"@) {
        lemma_plain_days(value);
        if let Ok(days) = plain_days(value) {
            lemma_sets(days);
            assert(are_weekdays(split_on(value, ','), days));
        }
    }
}

proof fn lemma_on_weekly(parts: Seq<PartText>, start: Seq<char>, interval: u32, every: PhraseText)
    requires
        value_of(parts, "BYMONTH"@) is None,
        says_how_often(every, Freq::Weekly, interval),
        interval >= 1,
    ensures
        on_is_right(parts, start, Freq::Weekly, interval, every, on_weekly(parts, start, interval)),
        on_weekly(parts, start, interval) is Ok <==> can_say_the_days(
            parts,
            start,
            Freq::Weekly,
            interval,
        ),
{
    let by_day = value_of(parts, "BYDAY"@);
    if by_day is Some {
        let value = by_day->0;
        lemma_plain_days(value);
        if let Ok(days) = plain_days(value) {
            lemma_sets(days);
            assert(are_days_of(by_day, start, days));
            assert forall|other: Seq<Weekday>| #[trigger]
                are_days_of(by_day, start, other) implies other == days by {
                lemma_one_list(split_on(value, ','), other, days);
            }
        } else {
            assert forall|other: Seq<Weekday>| !#[trigger] are_days_of(by_day, start, other) by {
                assert(!are_weekdays(split_on(value, ','), other));
            }
        }
    } else if let Some(day) = starts_on(start) {
        let days = seq![weekday_at(day.weekday())];
        assert(days[0].place() == day.weekday());
        lemma_sets(days);
        assert(are_days_of(by_day, start, days));
        assert(weeks_are_plain(parts, interval, days));
    }
}

proof fn lemma_on_monthly(parts: Seq<PartText>, start: Seq<char>, interval: u32, every: PhraseText)
    requires
        value_of(parts, "BYMONTH"@) is None,
        says_how_often(every, Freq::Monthly, interval),
    ensures
        on_is_right(parts, start, Freq::Monthly, interval, every, on_monthly(parts, start)),
        on_monthly(parts, start) is Ok <==> can_say_the_days(
            parts,
            start,
            Freq::Monthly,
            interval,
        ),
{
    if let Some(value) = value_of(parts, "BYDAY"@) {
        lemma_nth_weekday(value);
        if let Some(positions) = value_of(parts, "BYSETPOS"@) {
            lemma_nth_of_set(value, positions);
        }
    }
    if let Some(value) = value_of(parts, "BYMONTHDAY"@) {
        lemma_month_days(value);
    }
}

proof fn lemma_on_yearly(parts: Seq<PartText>, start: Seq<char>, interval: u32, every: PhraseText)
    requires
        says_how_often(every, Freq::Yearly, interval),
    ensures
        on_is_right(parts, start, Freq::Yearly, interval, every, on_yearly(parts, start)),
        on_yearly(parts, start) is Ok <==> can_say_the_days(parts, start, Freq::Yearly, interval),
{
    lemma_yearly_month(parts, start);
    if let Some(value) = value_of(parts, "BYDAY"@) {
        lemma_nth_weekday(value);
        if let Some(positions) = value_of(parts, "BYSETPOS"@) {
            lemma_nth_of_set(value, positions);
        }
    }
    if let Some(value) = value_of(parts, "BYMONTHDAY"@) {
        lemma_split_some(value, ',');
    }
}

proof fn lemma_yearly_month(parts: Seq<PartText>, start: Seq<char>)
    ensures
        yearly_month(parts, start) matches Ok(month) ==> match value_of(parts, "BYMONTH"@) {
            Some(value) => is_one_month(value, month),
            None => starts_on(start) matches Some(day) && month == day.month as u8,
        },
        yearly_month(parts, start) is Ok <==> match value_of(parts, "BYMONTH"@) {
            Some(value) => exists|month: u8| is_one_month(value, month),
            None => starts_on(start) is Some,
        },
{
    if let Some(value) = value_of(parts, "BYMONTH"@) {
        lemma_split_some(value, ',');
        if let Ok(month) = yearly_month(parts, start) {
            assert(is_one_month(value, month));
        }
    }
}

/// The days of a rule can be said.
pub open spec fn can_say_the_days(
    parts: Seq<PartText>,
    start: Seq<char>,
    freq: Freq,
    interval: u32,
) -> bool {
    let by_day = value_of(parts, "BYDAY"@);
    let by_month_day = value_of(parts, "BYMONTHDAY"@);
    let set_pos = value_of(parts, "BYSETPOS"@);
    let by_month = value_of(parts, "BYMONTH"@);
    &&& by_month is Some ==> freq is Yearly
    &&& match freq {
        Freq::Secondly | Freq::Minutely | Freq::Hourly => by_day is None && by_month_day is None
            && set_pos is None,
        Freq::Daily => by_month_day is None && set_pos is None && (by_day is None || (interval == 1
            && exists|days: Seq<Weekday>| #[trigger] are_weekdays(split_on(by_day->0, ','), days))),
        Freq::Weekly => by_month_day is None && set_pos is None && exists|days: Seq<Weekday>|
            #[trigger]
            are_days_of(by_day, start, days) && weeks_are_plain(parts, interval, days),
        Freq::Monthly => match (set_pos, by_month_day, by_day) {
            (Some(positions), None, Some(days)) => can_say_nth_of_set(days, positions),
            (None, Some(value), None) => can_say_month_days(value),
            (None, None, Some(value)) => can_say_nth_weekday(value),
            (None, None, None) => starts_on(start) is Some,
            _ => false,
        },
        Freq::Yearly => (if by_month is Some {
            exists|month: u8| is_one_month(by_month->0, month)
        } else {
            starts_on(start) is Some
        }) && match (set_pos, by_month_day, by_day) {
            (Some(positions), None, Some(days)) => by_month is Some && can_say_nth_of_set(
                days,
                positions,
            ),
            (None, None, Some(value)) => by_month is Some && can_say_nth_weekday(value),
            (None, Some(value), None) => split_on(value, ',').len() == 1 && (signed_in(
                trimmed(split_on(value, ',')[0], Blank::Unicode),
            ) matches Some(n) && 1 <= n <= 31),
            (None, None, None) => starts_on(start) is Some,
            _ => false,
        },
    }
}

/// One weekday at a position that has a word.
pub open spec fn can_say_nth_weekday(value: Seq<char>) -> bool {
    split_on(value, ',').len() == 1 && (weekday_token_in(split_on(value, ',')[0]) matches Some(
        (Some(ordinal), _),
    ) && has_a_word(ordinal as int))
}

/// A rule is said where it can be, and named otherwise: a rule that is read, has
/// no part without words, an end that can be said and days that can be said gets
/// its sentence. One that does not keeps the unit it repeats in. No rule at all
/// is no repeat.
pub proof fn a_rule_is_said_where_it_can_be(question: QuestionText)
    ensures
        ({
            let parts = rule_parts(question.rrule).unwrap().1;
            let freq = freq_in(value_of(parts, "FREQ"@)->0);
            let interval = interval_in(value_of(parts, "INTERVAL"@));
            let read = rule_parts(question.rrule) is Some && value_of(parts, "FREQ"@) is Some && freq
                is Some;
            &&& summary_of(question) is NoRepeat <==> is_blank(question.rrule, Blank::Unicode)
            &&& !is_blank(question.rrule, Blank::Unicode) ==> {
                &&& summary_of(question) is Described <==> {
                    &&& read
                    &&& interval is Some
                    &&& forall|i: int|
                        0 <= i < parts.len() ==> has_room_for((#[trigger] parts[i]).key)
                    &&& exists|end: Option<PhraseText>| #[trigger]
                        says_the_end(parts, question.last_day, end)
                    &&& can_say_the_days(parts, question.start, freq->0, interval->0)
                }
                &&& match summary_of(question) {
                    SummaryText::Undescribed { reason, unit } => {
                        &&& unit == if read {
                            Some(unit_for_freq(freq->0))
                        } else {
                            None
                        }
                        &&& reason is CountAndUntil ==> value_of(parts, "COUNT"@) is Some
                            && value_of(parts, "UNTIL"@) is Some
                        &&& reason is NoOccurrences ==> value_of(parts, "COUNT"@) is Some
                            && unsigned_in(value_of(parts, "COUNT"@)->0) == Some(0nat)
                        &&& reason is WeekStart ==> freq == Some(Freq::Weekly) && interval->0 > 1
                            && value_of(parts, "WKST"@) is Some
                    },
                    _ => true,
                }
            }
        }),
{
    let parts = rule_parts(question.rrule).unwrap().1;
    let freq = freq_in(value_of(parts, "FREQ"@)->0)->0;
    let interval = interval_in(value_of(parts, "INTERVAL"@))->0;
    let often = every_said(unit_of(freq), interval);
    assert(says_how_often(often, freq, interval));
    if interval_in(value_of(parts, "INTERVAL"@)) is Some {
        lemma_on_said(parts, question.start, freq, interval, often);
    }
    lemma_end_can_be_said(parts, question.last_day);
    lemma_reasons(parts, question.start, freq, interval);
}

proof fn lemma_end_can_be_said(parts: Seq<PartText>, last_day: Option<Seq<char>>)
    ensures
        end_said(parts, last_day) is Ok <==> exists|
            end: Option<PhraseText>,
        | #[trigger] says_the_end(parts, last_day, end),
{
    if let Ok(end) = end_said(parts, last_day) {
        assert(says_the_end(parts, last_day, end));
    }
}

proof fn lemma_reasons(parts: Seq<PartText>, start: Seq<char>, freq: Freq, interval: u32)
    ensures
        on_said(parts, start, freq, interval) matches Err(reason) ==> {
            &&& !(reason is CountAndUntil)
            &&& !(reason is NoOccurrences)
            &&& reason is WeekStart ==> freq is Weekly && interval > 1 && value_of(parts, "WKST"@)
                is Some
        },
{
    if let Some(value) = value_of(parts, "BYDAY"@) {
        lemma_plain_reasons(split_on(value, ','));
    }
}

proof fn lemma_plain_reasons(tokens: Seq<Seq<char>>)
    ensures
        plain_refusals(tokens) matches Some(reason) ==> reason is Ordinal || reason is Unreadable,
    decreases tokens.len(),
{
    if tokens.len() > 0 {
        lemma_plain_reasons(tokens.drop_last());
        assert(plain_refusal(tokens.last()) matches Some(reason) ==> reason is Ordinal
            || reason is Unreadable);
    }
}

/// The interval is said: with one of more than one, the sentence counts it under
/// the name of the frequency's unit; with one of one, nothing is counted. So two
/// rules that differ in their interval alone never get the same sentence.
pub proof fn the_interval_is_said(
    question: QuestionText,
    key: Seq<char>,
    every: PhraseText,
    on: Option<PhraseText>,
    end: Option<PhraseText>,
    freq: Freq,
    interval: u32,
)
    requires
        summary_of(question) == (SummaryText::Described { key, every, on, end }),
        rule_parts(question.rrule) matches Some((_, parts)) && value_of(parts, "FREQ"@) is Some
            && freq_in(value_of(parts, "FREQ"@)->0) == Some(freq) && interval_in(
            value_of(parts, "INTERVAL"@),
        ) == Some(interval),
    ensures
        interval > 1 ==> every.count == Some(interval) && every.key == "recurrenceSummary."@ + (
        "interval."@ + name_of_unit(freq)),
        interval == 1 ==> every.count is None,
{
    the_sentence_says_the_rule(question, key, every, on, end);
}

} // verus!
