use cal_core::civil::Date;
use cal_core::series_shift::{
    answer_series_shift, shift_series, SeriesShift, SeriesShiftQuestion, ShiftRefusal,
};
use chrono::{Datelike, NaiveDate};

fn day(text: &str) -> Date {
    let read = NaiveDate::parse_from_str(text, "%Y-%m-%d").expect("a test date");
    Date::from_ymd_opt(read.year(), read.month(), read.day()).expect("a day")
}

fn shifted(rrule: &str, start: &str, days: i32) -> String {
    match shift_series(rrule, day(start), days, false, None) {
        SeriesShift::Shifted { rrule } => rrule,
        SeriesShift::Refused { reason } => panic!("{rrule} +{days} was refused: {reason:?}"),
    }
}

fn refused(rrule: &str, start: &str, days: i32, time_changes: bool) -> ShiftRefusal {
    match shift_series(rrule, day(start), days, time_changes, None) {
        SeriesShift::Refused { reason } => reason,
        SeriesShift::Shifted { rrule: out } => panic!("{rrule} +{days} was shifted to {out}"),
    }
}

#[test]
fn weekdays_move_round_the_week() {
    assert_eq!(
        shifted("FREQ=WEEKLY;BYDAY=MO", "2026-05-04", 1),
        "FREQ=WEEKLY;BYDAY=TU"
    );
    assert_eq!(
        shifted("FREQ=WEEKLY;BYDAY=MO,WE", "2026-05-04", 1),
        "FREQ=WEEKLY;BYDAY=TU,TH"
    );
    assert_eq!(
        shifted("FREQ=WEEKLY;BYDAY=SU", "2026-05-03", 1),
        "FREQ=WEEKLY;BYDAY=MO"
    );
    assert_eq!(
        shifted("FREQ=WEEKLY;BYDAY=MO", "2026-05-04", -1),
        "FREQ=WEEKLY;BYDAY=SU"
    );
    assert_eq!(
        shifted("FREQ=WEEKLY;BYDAY=MO", "2026-05-04", 7),
        "FREQ=WEEKLY;BYDAY=MO"
    );
    assert_eq!(
        shifted("FREQ=MONTHLY;BYDAY=MO", "2026-05-04", 1),
        "FREQ=MONTHLY;BYDAY=TU"
    );
}

#[test]
fn every_other_week_moves_its_week_start_with_its_days() {
    assert_eq!(
        shifted("FREQ=WEEKLY;INTERVAL=2;BYDAY=MO,TU", "2026-05-04", 6),
        "FREQ=WEEKLY;INTERVAL=2;BYDAY=SU,MO;WKST=SU"
    );
    assert_eq!(
        shifted(
            "FREQ=WEEKLY;INTERVAL=2;BYDAY=SU,TU;WKST=SU",
            "2026-05-03",
            1
        ),
        "FREQ=WEEKLY;INTERVAL=2;BYDAY=MO,WE;WKST=MO"
    );
    assert_eq!(
        shifted("FREQ=WEEKLY;INTERVAL=2;BYDAY=MO", "2026-05-04", 1),
        "FREQ=WEEKLY;INTERVAL=2;BYDAY=TU;WKST=TU"
    );
    assert_eq!(
        shifted("FREQ=WEEKLY;INTERVAL=2;BYDAY=WE", "2026-05-04", 5),
        "FREQ=WEEKLY;INTERVAL=2;BYDAY=MO;WKST=SA"
    );
    assert_eq!(
        shifted("FREQ=WEEKLY;INTERVAL=3", "2026-05-04", 2),
        "FREQ=WEEKLY;INTERVAL=3"
    );
}

#[test]
fn until_moves_with_the_series() {
    assert_eq!(
        shifted("FREQ=DAILY;UNTIL=20261231", "2026-05-04", 1),
        "FREQ=DAILY;UNTIL=20270101"
    );
    assert_eq!(
        shifted(
            "FREQ=WEEKLY;BYDAY=MO;UNTIL=20261130T235959Z",
            "2026-05-04",
            2
        ),
        "FREQ=WEEKLY;BYDAY=WE;UNTIL=20261202T235959Z"
    );
    assert_eq!(
        shifted("FREQ=DAILY;UNTIL=20260503T090000", "2026-05-01", -2),
        "FREQ=DAILY;UNTIL=20260501T090000"
    );
}

#[test]
fn a_utc_until_takes_the_bound_the_shell_moved() {
    let moved = |rrule: &str, days: i32, time_changes: bool, until: &str| match shift_series(
        rrule,
        day("2026-03-20"),
        days,
        time_changes,
        Some(until),
    ) {
        SeriesShift::Shifted { rrule } => rrule,
        SeriesShift::Refused { reason } => panic!("{rrule} was refused: {reason:?}"),
    };
    assert_eq!(
        moved(
            "FREQ=DAILY;UNTIL=20260328T075959Z",
            1,
            false,
            "20260329T065959Z"
        ),
        "FREQ=DAILY;UNTIL=20260329T065959Z"
    );
    assert_eq!(
        moved(
            "FREQ=DAILY;UNTIL=20260328T075959Z",
            0,
            true,
            "20260328T085959z"
        ),
        "FREQ=DAILY;UNTIL=20260328T085959Z"
    );
    assert_eq!(
        moved("FREQ=DAILY;UNTIL=20260328", 1, false, "20260329T065959Z"),
        "FREQ=DAILY;UNTIL=20260329"
    );
    assert_eq!(
        shift_series(
            "FREQ=DAILY;UNTIL=20260328T075959Z",
            day("2026-03-20"),
            1,
            false,
            Some("tomorrow")
        ),
        SeriesShift::Refused {
            reason: ShiftRefusal::Unreadable
        }
    );
}

#[test]
fn a_rule_that_follows_its_start_is_unchanged() {
    assert_eq!(
        shifted("FREQ=DAILY;COUNT=5", "2026-05-04", 3),
        "FREQ=DAILY;COUNT=5"
    );
    assert_eq!(shifted("FREQ=MONTHLY", "2026-05-10", 3), "FREQ=MONTHLY");
    assert_eq!(shifted("FREQ=YEARLY", "2026-03-30", 3), "FREQ=YEARLY");
}

#[test]
fn a_day_of_the_month_moves_within_the_month() {
    assert_eq!(
        shifted("FREQ=MONTHLY;BYMONTHDAY=10", "2026-05-10", 2),
        "FREQ=MONTHLY;BYMONTHDAY=12"
    );
    assert_eq!(
        shifted("FREQ=YEARLY;BYMONTH=3;BYMONTHDAY=10", "2026-03-10", 2),
        "FREQ=YEARLY;BYMONTH=3;BYMONTHDAY=12"
    );
    assert_eq!(
        shifted("FREQ=MONTHLY;INTERVAL=2;BYMONTHDAY=10", "2026-05-10", 2),
        "FREQ=MONTHLY;INTERVAL=2;BYMONTHDAY=12"
    );
    assert_eq!(
        refused("FREQ=MONTHLY;BYMONTHDAY=27", "2026-05-27", 2, false),
        ShiftRefusal::MonthEnd
    );
    assert_eq!(
        refused("FREQ=MONTHLY;BYMONTHDAY=-1", "2026-05-31", 1, false),
        ShiftRefusal::NegativeMonthDay
    );
    assert_eq!(
        refused("FREQ=MONTHLY;BYMONTHDAY=0", "2026-05-04", 1, false),
        ShiftRefusal::Unreadable
    );
    assert_eq!(
        refused("FREQ=MONTHLY", "2026-05-27", 3, false),
        ShiftRefusal::MonthEnd
    );
    assert_eq!(
        refused("FREQ=MONTHLY", "2026-05-20", 15, false),
        ShiftRefusal::MonthEnd
    );
}

#[test]
fn a_rule_limited_to_some_months_or_years_is_refused() {
    for (rrule, start, days) in [
        ("FREQ=YEARLY;BYMONTH=3;BYDAY=MO", "2026-03-02", 1),
        ("FREQ=DAILY;BYMONTH=3", "2026-03-10", 1),
        ("FREQ=WEEKLY;BYDAY=MO;BYMONTH=3", "2026-03-02", 1),
        ("FREQ=MONTHLY;INTERVAL=2;BYDAY=MO", "2026-05-04", 1),
        ("FREQ=YEARLY;INTERVAL=2;BYDAY=MO", "2026-05-04", 1),
        ("FREQ=MONTHLY;INTERVAL=2;BYMONTHDAY=10", "2026-05-04", -6),
        (
            "FREQ=YEARLY;INTERVAL=2;BYMONTH=3;BYMONTHDAY=10",
            "2026-12-30",
            3,
        ),
        ("FREQ=YEARLY;BYMONTH=3", "2026-03-25", 7),
    ] {
        assert_eq!(
            refused(rrule, start, days, false),
            ShiftRefusal::LimitedMonths,
            "{rrule} from {start} by {days}"
        );
    }
    assert_eq!(
        refused("FREQ=YEARLY;BYMONTH=3", "2026-03-30", 3, false),
        ShiftRefusal::MonthEnd
    );
}

#[test]
fn the_end_of_february_is_refused_for_a_yearly_date() {
    assert_eq!(
        refused("FREQ=YEARLY", "2026-02-27", 3, false),
        ShiftRefusal::LeapDay
    );
    assert_eq!(
        refused("FREQ=YEARLY", "2028-02-29", 1, false),
        ShiftRefusal::LeapDay
    );
    assert_eq!(
        refused("FREQ=YEARLY", "2026-03-02", -3, false),
        ShiftRefusal::LeapDay
    );
}

#[test]
fn rules_that_cannot_move_by_whole_days_are_refused() {
    assert_eq!(
        refused("FREQ=MONTHLY;BYDAY=2SU", "2026-05-10", 1, false),
        ShiftRefusal::OrdinalWeekday
    );
    assert_eq!(
        refused(
            "FREQ=MONTHLY;BYDAY=MO,TU,WE,TH,FR;BYSETPOS=-1",
            "2026-05-29",
            1,
            false
        ),
        ShiftRefusal::SetPosition
    );
    assert_eq!(
        refused("FREQ=YEARLY;BYYEARDAY=100", "2026-04-10", 1, false),
        ShiftRefusal::YearDay
    );
    assert_eq!(
        refused("FREQ=YEARLY;BYWEEKNO=20;BYDAY=MO", "2026-05-11", 1, false),
        ShiftRefusal::WeekNumber
    );
    assert_eq!(
        refused("FREQ=DAILY;X-NAME=1", "2026-05-04", 1, false),
        ShiftRefusal::UnknownPart
    );
    assert_eq!(
        refused("BYDAY=MO", "2026-05-04", 1, false),
        ShiftRefusal::Unreadable
    );
    assert_eq!(
        refused("FREQ=FORTNIGHTLY", "2026-05-04", 1, false),
        ShiftRefusal::Unreadable
    );
    assert_eq!(
        refused("FREQ=DAILY;UNTIL=soon", "2026-05-04", 1, false),
        ShiftRefusal::Unreadable
    );
}

#[test]
fn garbled_rules_are_unreadable_not_a_crash() {
    assert_eq!(
        refused("FREQ=DAILY;UNTIL=20261231T12345é", "2026-05-04", 1, false),
        ShiftRefusal::Unreadable
    );
    assert_eq!(
        refused("FREQ=WEEKLY;BYDAY=MO;BYDAY=WE", "2026-05-04", 1, false),
        ShiftRefusal::Unreadable
    );
}

#[test]
fn time_of_day_parts_block_only_a_time_change() {
    assert_eq!(
        shifted("FREQ=DAILY;BYHOUR=9,17", "2026-05-04", 1),
        "FREQ=DAILY;BYHOUR=9,17"
    );
    assert_eq!(
        refused("FREQ=DAILY;BYHOUR=9,17", "2026-05-04", 0, true),
        ShiftRefusal::TimeOfDay
    );
    assert_eq!(
        refused("FREQ=DAILY;BYMINUTE=30", "2026-05-04", 1, true),
        ShiftRefusal::TimeOfDay
    );
}

#[test]
fn no_shift_leaves_the_rule_as_written() {
    let odd = "FREQ=MONTHLY;BYSETPOS=1;BYDAY=MO";
    assert_eq!(shifted(odd, "2026-05-04", 0), odd);
    assert_eq!(
        shifted("RRULE:FREQ=WEEKLY;BYDAY=MO;", "2026-05-04", 0),
        "RRULE:FREQ=WEEKLY;BYDAY=MO;"
    );
}

#[test]
fn a_prefix_and_lower_case_are_read() {
    assert_eq!(
        shifted("RRULE:FREQ=WEEKLY;BYDAY=MO", "2026-05-04", 1),
        "RRULE:FREQ=WEEKLY;BYDAY=TU"
    );
    assert_eq!(
        shifted("freq=weekly;byday=mo;", "2026-05-04", 1),
        "freq=weekly;BYDAY=TU"
    );
}

#[test]
fn series_shift_the_door_answers_in_json() {
    let question = |rrule: &str, start: &str, until: Option<&str>| SeriesShiftQuestion {
        rrule: rrule.into(),
        start: start.into(),
        days: 1,
        time_changes: false,
        until: until.map(str::to_string),
    };
    assert_eq!(
        answer_series_shift(&question("FREQ=WEEKLY;BYDAY=MO", "2026-05-04", None)),
        SeriesShift::Shifted {
            rrule: "FREQ=WEEKLY;BYDAY=TU".into(),
        }
    );
    assert_eq!(
        answer_series_shift(&question("FREQ=MONTHLY;BYDAY=2SU", "2026-05-10", None)),
        SeriesShift::Refused {
            reason: ShiftRefusal::OrdinalWeekday,
        }
    );
    assert_eq!(
        answer_series_shift(&question(
            "FREQ=DAILY;UNTIL=20260328T075959Z",
            "2026-03-20",
            Some("20260329T065959Z")
        )),
        SeriesShift::Shifted {
            rrule: "FREQ=DAILY;UNTIL=20260329T065959Z".into(),
        }
    );
    assert_eq!(
        answer_series_shift(&question("FREQ=DAILY", "May 4", None)),
        SeriesShift::Refused {
            reason: ShiftRefusal::Unreadable,
        }
    );
}

#[test]
fn moving_there_and_back_gives_the_weekdays_again() {
    let there = shifted("FREQ=WEEKLY;BYDAY=MO,WE", "2026-05-04", 3);
    assert_eq!(there, "FREQ=WEEKLY;BYDAY=TH,SA");
    assert_eq!(
        shifted(&there, "2026-05-07", -3),
        "FREQ=WEEKLY;BYDAY=MO,WE"
    );
}
