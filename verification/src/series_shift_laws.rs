//! What a shifted series promises: every day of its rule moves by the days the
//! series moves by, everything else stays as it was written, and a rule is
//! refused exactly where its days could not all move alike.

use vstd::prelude::*;

use crate::civil::{
    compact_date, compact_text, day_at, day_numbers_follow_the_calendar, days_in_month,
    every_number_has_a_day, lemma_compact_reads_back, lemma_day_bounds, lemma_number_bounds,
    moved_day, Ymd,
};
use crate::rrule_parts::{
    freq_in, has_key, interval_in, rule_parts, the_parts_are_the_pieces, utc_date_time, value_of,
    weekday_letters, weekday_letters_name_their_day, weekday_named, Freq, PartText,
};
use crate::series_shift::{
    checked_bound, crosses_february, end_of_february, leaves_its_period, meets_end_of_february,
    moved_month_days, moved_tokens, moved_until, moved_weekday, new_by_day, new_by_month_day,
    new_until, new_value, new_week_start, parts_refusal, replaced, shifted, until_date,
    written_part, written_rule, ShiftRefusal,
};
use crate::text::{
    is_digit, joined, lemma_decimal_reads_back, lemma_split_joined, lemma_split_some,
    lemma_trimmed_same, signed_decimal, signed_in, split_on, trimmed, uppercase, Blank,
};
use crate::types::{weekday_at, Weekday};

verus! {

// ---------------------------------------------------------------------------
// What moving is
// ---------------------------------------------------------------------------

/// Two lists of days of the month, the second `days` days after the first: as
/// many of them, each a number between 1 and 28, and each moved by the days.
pub open spec fn month_days_move(was: Seq<char>, now: Seq<char>, days: int) -> bool {
    let before = split_on(was, ',');
    let after = split_on(now, ',');
    &&& after.len() == before.len()
    &&& forall|k: int|
        0 <= k < before.len() ==> {
            let x = signed_in(trimmed(#[trigger] before[k], Blank::Unicode));
            let y = signed_in(trimmed(after[k], Blank::Unicode));
            &&& x is Some && y is Some
            &&& y->0 - x->0 == days
            &&& 1 <= x->0 <= 28
            &&& 1 <= y->0 <= 28
        }
}

/// The weekday a token names.
pub open spec fn token_day(token: Seq<char>) -> Option<Weekday> {
    weekday_named(uppercase(trimmed(token, Blank::Unicode)))
}

/// Two lists of weekdays, the second `days` days after the first: as many of
/// them, each as many days further round the week.
pub open spec fn weekdays_move(was: Seq<char>, now: Seq<char>, days: int) -> bool {
    let before = split_on(was, ',');
    let after = split_on(now, ',');
    &&& after.len() == before.len()
    &&& forall|k: int|
        0 <= k < before.len() ==> {
            let x = token_day(#[trigger] before[k]);
            let y = token_day(after[k]);
            &&& x is Some && y is Some
            &&& (y->0.place() - x->0.place() - days) % 7 == 0
        }
}

/// A bound and the one the series has once it moved: the bound handed in where
/// both are moments in UTC, otherwise a day `days` days later with the same
/// time.
pub open spec fn bound_moves(
    was: Seq<char>,
    now: Seq<char>,
    days: int,
    until: Option<Seq<char>>,
) -> bool {
    if utc_date_time(was) && until is Some {
        now == uppercase(trimmed(until.unwrap(), Blank::Unicode)) && utc_date_time(now)
    } else {
        exists|to: Ymd| #[trigger] is_bound_on(now, was.skip(8), to) && until_date(was.take(8))
            is Some && to.number() == until_date(was.take(8)).unwrap().number() + days
    }
}

/// A bound on a day, with what follows the day.
pub open spec fn is_bound_on(bound: Seq<char>, rest: Seq<char>, day: Ymd) -> bool {
    &&& day.valid()
    &&& bound == compact_text(day) + rest
    &&& 0 <= day.year <= 9999 ==> bound.take(8).len() == 8 && compact_date(bound.take(8)) == Some(
        day,
    )
}

/// A part is written with a new value.
pub open spec fn is_written(piece: Seq<char>, key: Seq<char>, value: Seq<char>) -> bool {
    piece == key + "="@ + value
}

/// A rule counts its weeks from a first day of the week.
pub open spec fn counts_weeks(parts: Seq<PartText>) -> bool {
    freq_in(value_of(parts, "FREQ"@)->0) == Some(Freq::Weekly) && interval_in(
        value_of(parts, "INTERVAL"@),
    )->0 > 1
}

/// What becomes of one part of a rule that moves.
pub open spec fn part_moves(
    parts: Seq<PartText>,
    i: int,
    piece: Seq<char>,
    days: int,
    until: Option<Seq<char>>,
) -> bool {
    let p = parts[i];
    if p.key == "BYMONTHDAY"@ {
        exists|now: Seq<char>| #[trigger] is_written(piece, p.key, now) && month_days_move(
            p.value,
            now,
            days,
        )
    } else if p.key == "BYDAY"@ {
        exists|now: Seq<char>| #[trigger] is_written(piece, p.key, now) && weekdays_move(
            p.value,
            now,
            days,
        )
    } else if p.key == "UNTIL"@ {
        exists|now: Seq<char>| #[trigger] is_written(piece, p.key, now) && bound_moves(
            p.value,
            now,
            days,
            until,
        )
    } else if p.key == "WKST"@ && counts_weeks(parts) {
        exists|now: Weekday| #[trigger] is_written(piece, p.key, weekday_letters(now))
            && weekday_named(uppercase(p.value)) is Some && (now.place() - weekday_named(
            uppercase(p.value),
        )->0.place() - days) % 7 == 0
    } else {
        piece == trimmed(p.raw, Blank::Unicode)
    }
}

// ---------------------------------------------------------------------------
// Lists that move
// ---------------------------------------------------------------------------

proof fn lemma_weekday_moves(day: Weekday, days: int)
    ensures
        (moved_weekday(day, days).place() - day.place() - days) % 7 == 0,
        token_day(weekday_letters(moved_weekday(day, days))) == Some(moved_weekday(day, days)),
{
    let to = moved_weekday(day, days);
    assert(weekday_at((day.place() + days) % 7).place() == (day.place() + days) % 7);
    let w = weekday_letters(to);
    weekday_letters_name_their_day(to);
    assert('A' <= w[0] && w[0] <= 'Z');
    assert('A' <= w[1] && w[1] <= 'Z');
    lemma_trimmed_same(w, Blank::Unicode);
}

proof fn lemma_tokens_move(tokens: Seq<Seq<char>>, days: int)
    ensures
        moved_tokens(tokens, days) matches Ok(now) ==> {
            &&& now.len() == tokens.len()
            &&& forall|k: int|
                0 <= k < tokens.len() ==> {
                    let x = token_day(#[trigger] tokens[k]);
                    let y = token_day(now[k]);
                    &&& x is Some && y is Some
                    &&& (y->0.place() - x->0.place() - days) % 7 == 0
                    &&& now[k] == weekday_letters(y->0)
                }
        },
        moved_tokens(tokens, days) is Ok <==> forall|k: int|
            0 <= k < tokens.len() ==> token_day(#[trigger] tokens[k]) is Some,
    decreases tokens.len(),
{
    if tokens.len() > 0 {
        let front = tokens.drop_last();
        lemma_tokens_move(front, days);
        assert forall|k: int| 0 <= k < front.len() implies front[k] == #[trigger] tokens[k] by {}
        if let Some(day) = token_day(tokens.last()) {
            lemma_weekday_moves(day, days);
        }
        if moved_tokens(tokens, days) is Ok {
            assert forall|k: int| 0 <= k < tokens.len() implies token_day(
                #[trigger] tokens[k],
            ) is Some by {
                if k < front.len() {
                    assert(token_day(front[k]) is Some);
                }
            }
            let before = moved_tokens(front, days)->Ok_0;
            let now = moved_tokens(tokens, days)->Ok_0;
            assert forall|k: int| 0 <= k < tokens.len() implies ({
                let x = token_day(#[trigger] tokens[k]);
                let y = token_day(now[k]);
                &&& x is Some && y is Some
                &&& (y->0.place() - x->0.place() - days) % 7 == 0
                &&& now[k] == weekday_letters(y->0)
            }) by {
                if k < front.len() {
                    assert(front[k] == tokens[k]);
                    assert(now[k] == before[k]);
                }
            }
        }
        if forall|k: int| 0 <= k < tokens.len() ==> token_day(#[trigger] tokens[k]) is Some {
            assert forall|k: int| 0 <= k < front.len() implies token_day(
                #[trigger] front[k],
            ) is Some by {
                assert(token_day(tokens[k]) is Some);
            }
            assert(token_day(tokens[tokens.len() - 1]) is Some);
        }
    }
}

/// A day of the month that can move.
pub open spec fn month_day_can_move(token: Seq<char>, days: int) -> bool {
    signed_in(trimmed(token, Blank::Unicode)) matches Some(day) && 1 <= day <= 28 && 1 <= day + days
        <= 28
}

proof fn lemma_month_day_text(n: int)
    requires
        1 <= n <= 28,
    ensures
        signed_in(trimmed(signed_decimal(n), Blank::Unicode)) == Some(n),
        forall|i: int|
            0 <= i < signed_decimal(n).len() ==> is_digit(#[trigger] signed_decimal(n)[i]),
        signed_decimal(n).len() > 0,
{
    let d = signed_decimal(n);
    lemma_decimal_reads_back(n as nat);
    assert(is_digit(d[0]));
    assert(is_digit(d[d.len() - 1]));
    lemma_trimmed_same(d, Blank::Unicode);
}

proof fn lemma_month_days_move(tokens: Seq<Seq<char>>, days: int)
    ensures
        moved_month_days(tokens, days) matches Ok(now) ==> {
            &&& now.len() == tokens.len()
            &&& forall|k: int|
                0 <= k < tokens.len() ==> {
                    let x = signed_in(trimmed(#[trigger] tokens[k], Blank::Unicode));
                    let y = signed_in(trimmed(now[k], Blank::Unicode));
                    &&& x is Some && y is Some
                    &&& y->0 - x->0 == days
                    &&& 1 <= x->0 <= 28
                    &&& 1 <= y->0 <= 28
                    &&& forall|i: int| 0 <= i < now[k].len() ==> is_digit(#[trigger] now[k][i])
                }
        },
        moved_month_days(tokens, days) is Ok <==> forall|k: int|
            0 <= k < tokens.len() ==> month_day_can_move(#[trigger] tokens[k], days),
    decreases tokens.len(),
{
    if tokens.len() > 0 {
        let front = tokens.drop_last();
        lemma_month_days_move(front, days);
        assert forall|k: int| 0 <= k < front.len() implies front[k] == #[trigger] tokens[k] by {}
        if month_day_can_move(tokens.last(), days) {
            let x = signed_in(trimmed(tokens.last(), Blank::Unicode))->0;
            lemma_month_day_text(x + days);
        }
        if moved_month_days(tokens, days) is Ok {
            assert(month_day_can_move(tokens.last(), days));
            assert forall|k: int| 0 <= k < tokens.len() implies month_day_can_move(
                #[trigger] tokens[k],
                days,
            ) by {
                if k < front.len() {
                    assert(month_day_can_move(front[k], days));
                }
            }
            let before = moved_month_days(front, days)->Ok_0;
            let now = moved_month_days(tokens, days)->Ok_0;
            assert forall|k: int| 0 <= k < tokens.len() implies ({
                let x = signed_in(trimmed(#[trigger] tokens[k], Blank::Unicode));
                let y = signed_in(trimmed(now[k], Blank::Unicode));
                &&& x is Some && y is Some
                &&& y->0 - x->0 == days
                &&& 1 <= x->0 <= 28
                &&& 1 <= y->0 <= 28
                &&& forall|i: int| 0 <= i < now[k].len() ==> is_digit(#[trigger] now[k][i])
            }) by {
                if k < front.len() {
                    assert(front[k] == tokens[k]);
                    assert(now[k] == before[k]);
                }
            }
        }
        if forall|k: int|
            0 <= k < tokens.len() ==> month_day_can_move(#[trigger] tokens[k], days) {
            assert forall|k: int| 0 <= k < front.len() implies month_day_can_move(
                #[trigger] front[k],
                days,
            ) by {
                assert(month_day_can_move(tokens[k], days));
            }
            assert(month_day_can_move(tokens[tokens.len() - 1], days));
        }
    }
}

proof fn lemma_by_month_day(value: Seq<char>, days: int)
    requires
        moved_month_days(split_on(value, ','), days) is Ok,
    ensures
        month_days_move(
            value,
            joined(moved_month_days(split_on(value, ','), days)->Ok_0, ","@),
            days,
        ),
{
    let tokens = split_on(value, ',');
    let now = moved_month_days(tokens, days)->Ok_0;
    lemma_split_some(value, ',');
    lemma_month_days_move(tokens, days);
    reveal_strlit(",");
    assert(","@ =~= seq![',']);
    assert forall|k: int, i: int| 0 <= k < now.len() && 0 <= i < now[k].len() implies
        #[trigger] now[k][i] != ',' by {
        let token = tokens[k];
        assert(is_digit(now[k][i]));
    }
    lemma_split_joined(now, ',');
}

proof fn lemma_by_day(value: Seq<char>, days: int)
    requires
        moved_tokens(split_on(value, ','), days) is Ok,
    ensures
        weekdays_move(value, joined(moved_tokens(split_on(value, ','), days)->Ok_0, ","@), days),
{
    let tokens = split_on(value, ',');
    let now = moved_tokens(tokens, days)->Ok_0;
    lemma_split_some(value, ',');
    lemma_tokens_move(tokens, days);
    reveal_strlit(",");
    assert(","@ =~= seq![',']);
    assert forall|k: int, i: int| 0 <= k < now.len() && 0 <= i < now[k].len() implies
        #[trigger] now[k][i] != ',' by {
        let day = token_day(now[k])->0;
        assert(token_day(tokens[k]) is Some);
        weekday_letters_name_their_day(day);
        assert('A' <= weekday_letters(day)[i]);
    }
    lemma_split_joined(now, ',');
}

proof fn lemma_moved_number(day: Ymd, days: int)
    ensures
        moved_day(day, days) matches Some(to) ==> to.valid() && to.number() == day.number() + days,
{
    if moved_day(day, days) is Some {
        every_number_has_a_day(day.number() + days);
    }
}

proof fn lemma_until(value: Seq<char>, days: int)
    requires
        moved_until(value, days) is Ok,
    ensures
        exists|to: Ymd| #[trigger]
            is_bound_on(moved_until(value, days)->Ok_0, value.skip(8), to) && until_date(
                value.take(8),
            ) is Some && to.number() == until_date(value.take(8)).unwrap().number() + days,
{
    let date = until_date(value.take(8))->0;
    let to = moved_day(date, days)->0;
    let now = moved_until(value, days)->Ok_0;
    lemma_moved_number(date, days);
    if 0 <= to.year <= 9999 {
        lemma_compact_reads_back(to);
        assert(now.take(8) =~= compact_text(to));
    }
    assert(is_bound_on(now, value.skip(8), to));
}

// ---------------------------------------------------------------------------
// The rule that is written
// ---------------------------------------------------------------------------

proof fn lemma_keys()
    ensures
        "BYDAY"@ != "BYMONTHDAY"@,
        "BYDAY"@ != "WKST"@,
        "BYDAY"@ != "UNTIL"@,
        "BYMONTHDAY"@ != "WKST"@,
        "BYMONTHDAY"@ != "UNTIL"@,
        "WKST"@ != "UNTIL"@,
{
    reveal_strlit("BYDAY");
    reveal_strlit("BYMONTHDAY");
    reveal_strlit("WKST");
    reveal_strlit("UNTIL");
    assert("BYDAY"@[0] != "UNTIL"@[0]);
    assert("BYDAY"@.len() == 5 && "BYMONTHDAY"@.len() == 10 && "WKST"@.len() == 4 && "UNTIL"@.len()
        == 5);
}

proof fn lemma_new_value_one(list: Seq<(Seq<char>, Seq<char>)>, key: Seq<char>, more: Seq<char>, value: Option<Seq<char>>)
    ensures
        new_value(list + replaced(more, value), key) == match new_value(list, key) {
            Some(v) => Some(v),
            None => if more == key {
                value
            } else {
                None
            },
        },
{
    let all = list + replaced(more, value);
    if value is Some {
        assert(all.drop_last() =~= list);
    } else {
        assert(all =~= list);
    }
}

proof fn lemma_new_values(
    by_day: Option<Seq<char>>,
    by_month_day: Option<Seq<char>>,
    week_start: Option<Seq<char>>,
    bound: Option<Seq<char>>,
    key: Seq<char>,
)
    ensures
        new_value(
            replaced("BYDAY"@, by_day) + replaced("BYMONTHDAY"@, by_month_day) + replaced(
                "WKST"@,
                week_start,
            ) + replaced("UNTIL"@, bound),
            key,
        ) == if key == "BYDAY"@ {
            by_day
        } else if key == "BYMONTHDAY"@ {
            by_month_day
        } else if key == "WKST"@ {
            week_start
        } else if key == "UNTIL"@ {
            bound
        } else {
            None
        },
{
    lemma_keys();
    let none = Seq::<(Seq<char>, Seq<char>)>::empty();
    let a = none + replaced("BYDAY"@, by_day);
    assert(a =~= replaced("BYDAY"@, by_day));
    let b = a + replaced("BYMONTHDAY"@, by_month_day);
    let c = b + replaced("WKST"@, week_start);
    lemma_new_value_one(none, key, "BYDAY"@, by_day);
    lemma_new_value_one(a, key, "BYMONTHDAY"@, by_month_day);
    lemma_new_value_one(b, key, "WKST"@, week_start);
    lemma_new_value_one(c, key, "UNTIL"@, bound);
}

/// A part that is there under a key no other has gives the key its value.
proof fn lemma_value_is(parts: Seq<PartText>, i: int)
    requires
        0 <= i < parts.len(),
        forall|a: int, b: int|
            0 <= a < b < parts.len() ==> (#[trigger] parts[a]).key != (#[trigger] parts[b]).key,
    ensures
        value_of(parts, parts[i].key) == Some(parts[i].value),
    decreases parts.len(),
{
    let front = parts.drop_last();
    if i < parts.len() - 1 {
        assert forall|a: int, b: int| 0 <= a < b < front.len() implies (#[trigger] front[a]).key
            != (#[trigger] front[b]).key by {
            assert(parts[a].key != parts[b].key);
        }
        lemma_value_is(front, i);
        assert(front[i] == parts[i]);
    } else {
        lemma_value_missing(front, parts[i].key);
    }
}

proof fn lemma_value_missing(parts: Seq<PartText>, key: Seq<char>)
    ensures
        value_of(parts, key) is None <==> forall|i: int|
            0 <= i < parts.len() ==> (#[trigger] parts[i]).key != key,
    decreases parts.len(),
{
    if parts.len() > 0 {
        let front = parts.drop_last();
        lemma_value_missing(front, key);
        if value_of(parts, key) is None {
            assert forall|i: int| 0 <= i < parts.len() implies (#[trigger] parts[i]).key != key by {
                if i < front.len() {
                    assert(front[i].key != key);
                }
            }
        }
        if forall|i: int| 0 <= i < parts.len() ==> (#[trigger] parts[i]).key != key {
            assert forall|i: int| 0 <= i < front.len() implies (#[trigger] front[i]).key
                != key by {
                assert(parts[i].key != key);
            }
            assert(parts[parts.len() - 1].key != key);
        }
    }
}

/// A shift moves every day of the rule by the days the series moves by: each day
/// of the month, each weekday, the bound and the first day of a counted week.
/// Every other part stays as it was written, and in its place. A rule that
/// counts its weeks by weekdays and names no first day gets one, the Monday
/// moved along; nothing else is added.
pub proof fn a_shift_moves_every_day(
    rrule: Seq<char>,
    start: Ymd,
    days: int,
    time_changes: bool,
    until: Option<Seq<char>>,
    prefix: Seq<char>,
    parts: Seq<PartText>,
    new: Seq<char>,
) -> (pieces: Seq<Seq<char>>)
    requires
        days != 0,
        rule_parts(trimmed(rrule, Blank::Unicode)) == Some((prefix, parts)),
        shifted(rrule, start, days, time_changes, until) == Ok::<Seq<char>, ShiftRefusal>(new),
    ensures
        new == prefix + joined(pieces, ";"@),
        forall|i: int|
            0 <= i < parts.len() ==> part_moves(parts, i, #[trigger] pieces[i], days, until),
        ({
            let added = counts_weeks(parts) && value_of(parts, "BYDAY"@) is Some && value_of(
                parts,
                "WKST"@,
            ) is None;
            &&& pieces.len() == parts.len() + if added {
                1int
            } else {
                0int
            }
            &&& added ==> exists|now: Weekday| #[trigger]
                is_written(pieces.last(), "WKST"@, weekday_letters(now)) && now.place() == days % 7
        }),
{
    let rule = trimmed(trimmed(rrule, Blank::Unicode), Blank::Unicode);
    the_parts_are_the_pieces(split_on(rule.skip(prefix.len() as int), ';'));
    let freq = freq_in(value_of(parts, "FREQ"@)->0)->0;
    let interval = interval_in(value_of(parts, "INTERVAL"@))->0;
    let by_months = freq is Monthly || freq is Yearly;
    let by_month = value_of(parts, "BYMONTH"@) is Some;
    let moved = moved_day(start, days)->0;
    let by_day = new_by_day(parts, days, by_months && (by_month || interval > 1))->Ok_0;
    let by_month_day = new_by_month_day(
        parts,
        days,
        interval > 1 && leaves_its_period(freq, start, moved),
    )->Ok_0;
    let week_start = new_week_start(parts, freq, interval, days)->Ok_0;
    let bound = new_until(parts, days, until)->Ok_0;
    let list = replaced("BYDAY"@, by_day) + replaced("BYMONTHDAY"@, by_month_day) + replaced(
        "WKST"@,
        week_start,
    ) + replaced("UNTIL"@, bound);
    assert(new == written_rule(prefix, parts, list));
    let kept = Seq::new(parts.len(), |i: int| written_part(parts[i], list));
    let added = match new_value(list, "WKST"@) {
        Some(v) => if has_key(parts, "WKST"@) {
            Seq::empty()
        } else {
            seq!["WKST="@ + v]
        },
        None => Seq::empty(),
    };
    let pieces = kept + added;
    lemma_keys();
    lemma_new_values(by_day, by_month_day, week_start, bound, "WKST"@);
    lemma_value_missing(parts, "WKST"@);
    assert(has_key(parts, "WKST"@) <==> value_of(parts, "WKST"@) is Some);
    reveal_strlit("WKST=");
    reveal_strlit("WKST");
    reveal_strlit("=");
    assert("WKST="@ =~= "WKST"@ + "="@);
    assert forall|i: int| 0 <= i < parts.len() implies part_moves(
        parts,
        i,
        #[trigger] pieces[i],
        days,
        until,
    ) by {
        let p = parts[i];
        let piece = pieces[i];
        assert(piece == written_part(p, list));
        lemma_new_values(by_day, by_month_day, week_start, bound, p.key);
        lemma_value_is(parts, i);
        if p.key == "BYMONTHDAY"@ {
            lemma_by_month_day(p.value, days);
            assert(is_written(piece, p.key, by_month_day->0));
        } else if p.key == "BYDAY"@ {
            lemma_by_day(p.value, days);
            assert(is_written(piece, p.key, by_day->0));
        } else if p.key == "UNTIL"@ {
            if !(utc_date_time(p.value) && until is Some) {
                lemma_until(p.value, days);
            }
            assert(is_written(piece, p.key, bound->0));
        } else if p.key == "WKST"@ && counts_weeks(parts) {
            let day = weekday_named(uppercase(p.value))->0;
            lemma_weekday_moves(day, days);
            assert(is_written(piece, p.key, weekday_letters(moved_weekday(day, days))));
        }
    }
    if counts_weeks(parts) && value_of(parts, "BYDAY"@) is Some && value_of(parts, "WKST"@)
        is None {
        let now = moved_weekday(Weekday::Monday, days);
        assert(weekday_at(days % 7).place() == days % 7);
        assert(pieces.last() == "WKST="@ + weekday_letters(now));
        assert(is_written(pieces.last(), "WKST"@, weekday_letters(now)));
    }
    pieces
}

// ---------------------------------------------------------------------------
// What is refused
// ---------------------------------------------------------------------------

/// A part that can move with the series, or need not.
pub open spec fn is_known_part(key: Seq<char>) -> bool {
    key == "FREQ"@ || key == "INTERVAL"@ || key == "COUNT"@ || key == "UNTIL"@ || key == "BYDAY"@
        || key == "BYMONTHDAY"@ || key == "BYMONTH"@ || key == "WKST"@ || key == "BYHOUR"@ || key
        == "BYMINUTE"@ || key == "BYSECOND"@
}

proof fn lemma_refusal(parts: Seq<PartText>)
    ensures
        parts_refusal(parts) is None <==> forall|i: int|
            0 <= i < parts.len() ==> is_known_part((#[trigger] parts[i]).key),
        parts_refusal(parts) matches Some(reason) ==> exists|i: int|
            0 <= i < parts.len() && !is_known_part((#[trigger] parts[i]).key) && reason
                == if parts[i].key == "BYSETPOS"@ {
                ShiftRefusal::SetPosition
            } else if parts[i].key == "BYYEARDAY"@ {
                ShiftRefusal::YearDay
            } else if parts[i].key == "BYWEEKNO"@ {
                ShiftRefusal::WeekNumber
            } else {
                ShiftRefusal::UnknownPart
            },
    decreases parts.len(),
{
    if parts.len() > 0 {
        let front = parts.drop_last();
        lemma_refusal(front);
        assert(parts[parts.len() - 1] == parts.last());
        if let Some(reason) = parts_refusal(parts) {
            if parts_refusal(front) is Some {
                let i = choose|i: int|
                    0 <= i < front.len() && !is_known_part((#[trigger] front[i]).key) && reason
                        == if front[i].key == "BYSETPOS"@ {
                        ShiftRefusal::SetPosition
                    } else if front[i].key == "BYYEARDAY"@ {
                        ShiftRefusal::YearDay
                    } else if front[i].key == "BYWEEKNO"@ {
                        ShiftRefusal::WeekNumber
                    } else {
                        ShiftRefusal::UnknownPart
                    };
                assert(parts[i] == front[i]);
            }
        } else {
            assert forall|i: int| 0 <= i < parts.len() implies is_known_part(
                (#[trigger] parts[i]).key,
            ) by {
                if i < front.len() {
                    assert(is_known_part(front[i].key));
                }
            }
        }
    }
}

/// The weekdays of a rule can move: each is named without an ordinal, and the
/// rule recurs in every month.
pub open spec fn weekdays_can_move(parts: Seq<PartText>, freq: Freq, interval: u32) -> bool {
    value_of(parts, "BYDAY"@) matches Some(value) ==> {
        &&& forall|k: int|
            0 <= k < split_on(value, ',').len() ==> token_day(#[trigger] split_on(value, ',')[k])
                is Some
        &&& (freq is Monthly || freq is Yearly) ==> interval == 1 && value_of(parts, "BYMONTH"@)
            is None
    }
}

/// The days of the month of a rule can move: each stays between 1 and 28, and a
/// rule that leaves out months or years keeps its start in the one it is in.
pub open spec fn month_days_can_move(
    parts: Seq<PartText>,
    freq: Freq,
    interval: u32,
    start: Ymd,
    moved: Ymd,
    days: int,
) -> bool {
    value_of(parts, "BYMONTHDAY"@) matches Some(value) ==> {
        &&& forall|k: int|
            0 <= k < split_on(value, ',').len() ==> month_day_can_move(
                #[trigger] split_on(value, ',')[k],
                days,
            )
        &&& interval > 1 && freq is Monthly ==> start.year == moved.year && start.month
            == moved.month
        &&& interval > 1 && freq is Yearly ==> start.year == moved.year
    }
}

/// A rule that takes its day from its start can move with it: within the first
/// 28 days of one month where it recurs by the month, and clear of the end of
/// February where it recurs by the year.
pub open spec fn start_can_move(
    parts: Seq<PartText>,
    freq: Freq,
    start: Ymd,
    moved: Ymd,
) -> bool {
    value_of(parts, "BYDAY"@) is None && value_of(parts, "BYMONTHDAY"@) is None ==> {
        let by_month = value_of(parts, "BYMONTH"@) is Some;
        &&& freq is Monthly || (freq is Yearly && by_month) ==> start.day <= 28 && moved.day <= 28
            && start.year == moved.year && start.month == moved.month
        &&& freq is Yearly && !by_month ==> {
            &&& !(start.month == 2 && start.day == 29)
            &&& !(moved.month == 2 && moved.day == 29)
            &&& forall|end: Ymd|
                end.month == 2 && end.day == days_in_month(end.year, 2) ==> !#[trigger] between(
                    start,
                    end,
                    moved,
                )
        }
    }
}

/// A day lies from the earlier of two days up to before the later one.
pub open spec fn between(a: Ymd, day: Ymd, b: Ymd) -> bool {
    (!day.before(a) && day.before(b)) || (!day.before(b) && day.before(a))
}

/// A rule whose days move is accepted exactly where each of them can move alike.
pub proof fn a_shift_is_accepted_where_every_day_can_move(
    rrule: Seq<char>,
    start: Ymd,
    moved: Ymd,
    days: int,
    time_changes: bool,
    until: Option<Seq<char>>,
    prefix: Seq<char>,
    parts: Seq<PartText>,
    freq: Freq,
)
    requires
        days != 0,
        start.valid(),
        moved.valid(),
        moved.number() == start.number() + days,
        rule_parts(trimmed(rrule, Blank::Unicode)) == Some((prefix, parts)),
        value_of(parts, "FREQ"@) matches Some(value) && freq_in(value) == Some(freq),
    ensures
        ({
            let interval = interval_in(value_of(parts, "INTERVAL"@));
            let timed = value_of(parts, "BYHOUR"@) is Some || value_of(parts, "BYMINUTE"@) is Some
                || value_of(parts, "BYSECOND"@) is Some;
            shifted(rrule, start, days, time_changes, until) is Ok <==> {
                &&& !(time_changes && timed)
                &&& forall|i: int| 0 <= i < parts.len() ==> is_known_part((#[trigger] parts[i]).key)
                &&& interval is Some
                &&& value_of(parts, "BYMONTH"@) is Some ==> freq is Monthly || freq is Yearly
                &&& weekdays_can_move(parts, freq, interval->0)
                &&& month_days_can_move(parts, freq, interval->0, start, moved, days)
                &&& start_can_move(parts, freq, start, moved)
                &&& freq is Weekly && interval->0 > 1 && value_of(parts, "WKST"@) is Some
                    ==> weekday_named(uppercase(value_of(parts, "WKST"@)->0)) is Some
                &&& value_of(parts, "UNTIL"@) matches Some(value) ==> if utc_date_time(value)
                    && until is Some {
                    checked_bound(until->0) is Ok
                } else {
                    moved_until(value, days) is Ok
                }
            }
        }),
{
    let interval = interval_in(value_of(parts, "INTERVAL"@))->0;
    lemma_refusal(parts);
    lemma_moved_is(start, moved, days);
    if let Some(value) = value_of(parts, "BYDAY"@) {
        lemma_tokens_move(split_on(value, ','), days);
    }
    if let Some(value) = value_of(parts, "BYMONTHDAY"@) {
        lemma_month_days_move(split_on(value, ','), days);
    }
    lemma_february(start, moved);
    if interval_in(value_of(parts, "INTERVAL"@)) is Some {
        assert(interval >= 1);
    }
}

proof fn lemma_moved_is(start: Ymd, moved: Ymd, days: int)
    requires
        start.valid(),
        moved.valid(),
        moved.number() == start.number() + days,
    ensures
        moved_day(start, days) == Some(moved),
{
    lemma_day_bounds();
    lemma_number_bounds(moved);
    every_number_has_a_day(moved.number());
    day_numbers_follow_the_calendar(day_at(moved.number()), moved);
}

proof fn lemma_february(a: Ymd, b: Ymd)
    ensures
        meets_end_of_february(a, b) <==> (a.month == 2 && a.day == 29) || (b.month == 2 && b.day
            == 29) || exists|end: Ymd|
            end.month == 2 && end.day == days_in_month(end.year, 2) && #[trigger] between(
                a,
                end,
                b,
            ),
{
    let (early, late) = if b.before(a) {
        (b, a)
    } else {
        (a, b)
    };
    if crosses_february(early, late) {
        let year = choose|year: int|
            early.year <= year <= late.year && !(#[trigger] end_of_february(year)).before(early)
                && end_of_february(year).before(late);
        assert(between(a, end_of_february(year), b));
    }
    if exists|end: Ymd|
        end.month == 2 && end.day == days_in_month(end.year, 2) && #[trigger] between(a, end, b) {
        let end = choose|end: Ymd|
            end.month == 2 && end.day == days_in_month(end.year, 2) && #[trigger] between(
                a,
                end,
                b,
            );
        assert(end == end_of_february(end.year));
        assert(early.year <= end.year <= late.year);
        assert(!end_of_february(end.year).before(early));
    }
}

/// The reason a shift is refused for is there: the part it names, the day of the
/// month, the month or the end of February.
pub proof fn a_refusal_names_what_stands_in_the_way(
    rrule: Seq<char>,
    start: Ymd,
    moved: Ymd,
    days: int,
    time_changes: bool,
    until: Option<Seq<char>>,
    prefix: Seq<char>,
    parts: Seq<PartText>,
    freq: Freq,
    reason: ShiftRefusal,
)
    requires
        start.valid(),
        moved.valid(),
        moved.number() == start.number() + days,
        rule_parts(trimmed(rrule, Blank::Unicode)) == Some((prefix, parts)),
        value_of(parts, "FREQ"@) matches Some(value) && freq_in(value) == Some(freq),
        shifted(rrule, start, days, time_changes, until) == Err::<Seq<char>, ShiftRefusal>(reason),
    ensures
        ({
            let interval = interval_in(value_of(parts, "INTERVAL"@))->0;
            let timed = value_of(parts, "BYHOUR"@) is Some || value_of(parts, "BYMINUTE"@) is Some
                || value_of(parts, "BYSECOND"@) is Some;
            let some_day = value_of(parts, "BYDAY"@) is Some || value_of(parts, "BYMONTHDAY"@)
                is Some;
            let by_month = value_of(parts, "BYMONTH"@) is Some;
            match reason {
                ShiftRefusal::TimeOfDay => time_changes && timed,
                ShiftRefusal::SetPosition => value_of(parts, "BYSETPOS"@) is Some,
                ShiftRefusal::YearDay => value_of(parts, "BYYEARDAY"@) is Some,
                ShiftRefusal::WeekNumber => value_of(parts, "BYWEEKNO"@) is Some,
                ShiftRefusal::UnknownPart => exists|i: int|
                    0 <= i < parts.len() && !is_known_part((#[trigger] parts[i]).key),
                ShiftRefusal::OrdinalWeekday => !weekdays_can_move(parts, freq, interval)
                    && value_of(parts, "BYDAY"@) is Some,
                ShiftRefusal::NegativeMonthDay => value_of(parts, "BYMONTHDAY"@) is Some
                    && !month_days_can_move(parts, freq, interval, start, moved, days),
                ShiftRefusal::MonthEnd => if value_of(parts, "BYMONTHDAY"@) is Some {
                    !month_days_can_move(parts, freq, interval, start, moved, days)
                } else {
                    !some_day && !start_can_move(parts, freq, start, moved) && (start.day > 28
                        || moved.day > 28 || !by_month)
                },
                ShiftRefusal::LimitedMonths => by_month || interval > 1,
                ShiftRefusal::LeapDay => freq is Yearly && !some_day && !by_month
                    && !start_can_move(parts, freq, start, moved),
                ShiftRefusal::Unreadable => true,
            }
        }),
{
    let interval = interval_in(value_of(parts, "INTERVAL"@))->0;
    lemma_refusal(parts);
    lemma_moved_is(start, moved, days);
    lemma_value_missing(parts, "BYSETPOS"@);
    lemma_value_missing(parts, "BYYEARDAY"@);
    lemma_value_missing(parts, "BYWEEKNO"@);
    if let Some(value) = value_of(parts, "BYDAY"@) {
        lemma_tokens_move(split_on(value, ','), days);
    }
    if let Some(value) = value_of(parts, "BYMONTHDAY"@) {
        lemma_month_days_move(split_on(value, ','), days);
    }
    lemma_february(start, moved);
    lemma_token_reasons(
        match value_of(parts, "BYDAY"@) {
            Some(value) => split_on(value, ','),
            None => Seq::empty(),
        },
        days,
    );
    lemma_month_day_reasons(
        match value_of(parts, "BYMONTHDAY"@) {
            Some(value) => split_on(value, ','),
            None => Seq::empty(),
        },
        days,
    );
    lemma_until_reason(parts, days, until);
}

proof fn lemma_token_reasons(tokens: Seq<Seq<char>>, days: int)
    ensures
        moved_tokens(tokens, days) matches Err(reason) ==> reason is Unreadable
            || reason is OrdinalWeekday,
    decreases tokens.len(),
{
    if tokens.len() > 0 {
        lemma_token_reasons(tokens.drop_last(), days);
    }
}

proof fn lemma_month_day_reasons(tokens: Seq<Seq<char>>, days: int)
    ensures
        moved_month_days(tokens, days) matches Err(reason) ==> reason is Unreadable
            || reason is NegativeMonthDay || reason is MonthEnd,
    decreases tokens.len(),
{
    if tokens.len() > 0 {
        lemma_month_day_reasons(tokens.drop_last(), days);
    }
}

proof fn lemma_until_reason(parts: Seq<PartText>, days: int, until: Option<Seq<char>>)
    ensures
        new_until(parts, days, until) matches Err(reason) ==> reason is Unreadable,
{
}

/// A series that moves there and back keeps its days of the month: shifting by
/// some days and then by as many the other way gives each of them again.
pub proof fn days_of_the_month_come_back(
    was: Seq<char>,
    there: Seq<char>,
    back: Seq<char>,
    days: int,
)
    requires
        month_days_move(was, there, days),
        month_days_move(there, back, -days),
    ensures
        split_on(back, ',').len() == split_on(was, ',').len(),
        forall|k: int|
            0 <= k < split_on(was, ',').len() ==> signed_in(
                trimmed(#[trigger] split_on(was, ',')[k], Blank::Unicode),
            ) == signed_in(trimmed(split_on(back, ',')[k], Blank::Unicode)),
{
    assert forall|k: int| 0 <= k < split_on(was, ',').len() implies signed_in(
        trimmed(#[trigger] split_on(was, ',')[k], Blank::Unicode),
    ) == signed_in(trimmed(split_on(back, ',')[k], Blank::Unicode)) by {
        let mid = split_on(there, ',')[k];
        assert(signed_in(trimmed(mid, Blank::Unicode)) is Some);
    }
}

} // verus!
