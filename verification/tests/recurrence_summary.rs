use cal_core::recurrence_summary::{
    describe_recurrence, DaySet, Phrase, RecurrenceSummary, RecurrenceSummaryQuestion, RepeatUnit,
    UndescribedReason, SUMMARY_KEYS,
};
use cal_core::Weekday;

fn ask(rrule: &str) -> RecurrenceSummary {
    describe_recurrence(&RecurrenceSummaryQuestion {
        rrule: rrule.into(),
        start: "2026-06-15".into(),
        last_day: None,
    })
}

fn ask_until(rrule: &str, last_day: Option<&str>) -> RecurrenceSummary {
    describe_recurrence(&RecurrenceSummaryQuestion {
        rrule: rrule.into(),
        start: "2026-06-15".into(),
        last_day: last_day.map(str::to_string),
    })
}

fn described(summary: &RecurrenceSummary) -> (&str, &Phrase, Option<&Phrase>, Option<&Phrase>) {
    match summary {
        RecurrenceSummary::Described {
            key,
            every,
            on,
            end,
        } => (key, every, on.as_ref(), end.as_ref()),
        other => panic!("expected a sentence, got {other:?}"),
    }
}

fn reason(summary: &RecurrenceSummary) -> (UndescribedReason, Option<RepeatUnit>) {
    match summary {
        RecurrenceSummary::Undescribed { reason, unit } => (*reason, *unit),
        other => panic!("expected no sentence, got {other:?}"),
    }
}

#[test]
fn no_rule_is_no_sentence() {
    assert_eq!(ask(""), RecurrenceSummary::NoRepeat);
    assert_eq!(ask("   "), RecurrenceSummary::NoRepeat);
}

#[test]
fn a_weekly_rule_says_its_days_itself() {
    let summary = ask("FREQ=WEEKLY;BYDAY=WE,MO");
    let (key, every, on, end) = described(&summary);
    assert_eq!(key, "recurrenceSummary.sentence.every");
    assert_eq!(every.key, "recurrenceSummary.weekly.onDays");
    assert_eq!(every.weekdays, [Weekday::Monday, Weekday::Wednesday]);
    assert!(on.is_none() && end.is_none());

    let summary = ask("FREQ=WEEKLY");
    let (_, every, _, _) = described(&summary);
    assert_eq!(every.weekdays, [Weekday::Monday]);

    let summary = ask("FREQ=WEEKLY;BYDAY=MO,TU,WE,TH,FR");
    let (_, every, _, _) = described(&summary);
    assert_eq!(every.key, "recurrenceSummary.weekly.workdays");
    assert!(every.weekdays.is_empty());

    let summary = ask("FREQ=DAILY;BYDAY=MO,WE");
    let (_, every, _, _) = described(&summary);
    assert_eq!(every.key, "recurrenceSummary.weekly.onDays");
    assert_eq!(every.weekdays, [Weekday::Monday, Weekday::Wednesday]);
}

#[test]
fn an_interval_counts_units_and_names_the_days_beside_it() {
    let summary = ask("FREQ=WEEKLY;INTERVAL=2;BYDAY=TU,TH");
    let (key, every, on, _) = described(&summary);
    assert_eq!(key, "recurrenceSummary.sentence.everyOn");
    assert_eq!(every.key, "recurrenceSummary.interval.week");
    assert_eq!(every.count, Some(2));
    let on = on.unwrap();
    assert_eq!(on.key, "recurrenceSummary.on.weekdays");
    assert_eq!(on.weekdays, [Weekday::Tuesday, Weekday::Thursday]);

    let (_, every, on, _) = {
        let s = ask("FREQ=DAILY;INTERVAL=3");
        let (k, e, o, n) = described(&s);
        assert_eq!(k, "recurrenceSummary.sentence.every");
        (k.to_string(), e.clone(), o.cloned(), n.cloned())
    };
    assert_eq!(every.key, "recurrenceSummary.interval.day");
    assert_eq!(every.count, Some(3));
    assert!(on.is_none());
}

#[test]
fn a_monthly_rule_says_which_day() {
    let summary = ask("FREQ=MONTHLY;BYMONTHDAY=15,1");
    let (_, _, on, _) = described(&summary);
    let on = on.unwrap();
    assert_eq!(on.key, "recurrenceSummary.on.monthDay");
    assert_eq!(on.month_days, [1, 15]);
    assert_eq!(on.count, Some(2));

    let summary = ask("FREQ=MONTHLY;BYMONTHDAY=-1");
    let (_, _, on, _) = described(&summary);
    assert_eq!(on.unwrap().key, "recurrenceSummary.on.lastDay");

    let summary = ask("FREQ=MONTHLY;BYDAY=-1FR");
    let (_, _, on, _) = described(&summary);
    let on = on.unwrap();
    assert_eq!(on.key, "recurrenceSummary.on.nthWeekday");
    assert_eq!((on.ordinal, on.weekday), (Some(-1), Some(Weekday::Friday)));

    let summary = ask("FREQ=MONTHLY");
    let (_, _, on, _) = described(&summary);
    assert_eq!(on.unwrap().month_days, [15]);
}

#[test]
fn a_set_position_is_worded_only_for_sets_with_a_name() {
    let summary = ask("FREQ=MONTHLY;BYDAY=MO,TU,WE,TH,FR;BYSETPOS=-1");
    let (_, _, on, _) = described(&summary);
    let on = on.unwrap();
    assert_eq!(on.key, "recurrenceSummary.on.nthOfSet");
    assert_eq!((on.ordinal, on.set), (Some(-1), Some(DaySet::Weekday)));

    let summary = ask("FREQ=MONTHLY;BYDAY=SA,SU;BYSETPOS=1");
    let (_, _, on, _) = described(&summary);
    assert_eq!(on.unwrap().set, Some(DaySet::WeekendDay));

    let summary = ask("FREQ=MONTHLY;BYDAY=MO,TU,WE,TH,FR,SA,SU;BYSETPOS=3");
    let (_, _, on, _) = described(&summary);
    let on = on.unwrap();
    assert_eq!(on.key, "recurrenceSummary.on.monthDay");
    assert_eq!(on.month_days, [3]);

    assert_eq!(
        reason(&ask("FREQ=MONTHLY;BYDAY=MO,WE;BYSETPOS=2")).0,
        UndescribedReason::SetPosition
    );
}

#[test]
fn a_yearly_rule_names_its_month() {
    let summary = ask("FREQ=YEARLY;BYMONTH=3;BYMONTHDAY=17");
    let (_, _, on, _) = described(&summary);
    let on = on.unwrap();
    assert_eq!(on.key, "recurrenceSummary.on.dateInYear");
    assert_eq!((on.month, on.month_days.as_slice()), (Some(3), &[17][..]));

    let summary = ask("FREQ=YEARLY");
    let (_, _, on, _) = described(&summary);
    let on = on.unwrap();
    assert_eq!((on.month, on.month_days.as_slice()), (Some(6), &[15][..]));

    let summary = ask("FREQ=YEARLY;BYMONTH=3;BYDAY=2TU");
    let (_, _, on, _) = described(&summary);
    let on = on.unwrap();
    assert_eq!(on.key, "recurrenceSummary.on.nthWeekdayInMonth");
    assert_eq!(
        (on.ordinal, on.weekday, on.month),
        (Some(2), Some(Weekday::Tuesday), Some(3))
    );

    assert_eq!(
        reason(&ask("FREQ=YEARLY;BYDAY=2TU")).0,
        UndescribedReason::UnknownPart
    );
    assert_eq!(
        reason(&ask("FREQ=YEARLY;BYMONTH=3,9;BYMONTHDAY=17")).0,
        UndescribedReason::LimitedMonths
    );
}

#[test]
fn the_end_is_a_count_or_the_day_the_shell_worked_out() {
    let summary = ask("FREQ=WEEKLY;BYDAY=MO;COUNT=5");
    let (key, _, _, end) = described(&summary);
    assert_eq!(key, "recurrenceSummary.sentence.everyEnd");
    let end = end.unwrap();
    assert_eq!(end.key, "recurrenceSummary.end.count");
    assert_eq!(end.count, Some(5));

    let summary = ask_until(
        "FREQ=WEEKLY;BYDAY=MO;UNTIL=20270331T235959Z",
        Some("2027-03-29"),
    );
    let (_, _, _, end) = described(&summary);
    let end = end.unwrap();
    assert_eq!(end.key, "recurrenceSummary.end.lastOn");
    assert_eq!(end.date.as_deref(), Some("2027-03-29"));
    let summary = ask_until("FREQ=WEEKLY;BYDAY=MO;UNTIL=20270331T235959Z", None);
    let (_, _, _, end) = described(&summary);
    assert_eq!(end.unwrap().key, "recurrenceSummary.end.bounded");

    assert_eq!(
        reason(&ask("FREQ=WEEKLY;COUNT=2;UNTIL=20270331T235959Z")).0,
        UndescribedReason::CountAndUntil
    );
    assert_eq!(
        reason(&ask("FREQ=WEEKLY;COUNT=0")).0,
        UndescribedReason::NoOccurrences
    );
}

#[test]
fn a_shape_without_a_sentence_says_which_kind_it_is() {
    let cases = [
        (
            "FREQ=WEEKLY;BYWEEKNO=3",
            UndescribedReason::UnknownPart,
            RepeatUnit::Week,
        ),
        (
            "FREQ=DAILY;BYYEARDAY=100",
            UndescribedReason::UnknownPart,
            RepeatUnit::Day,
        ),
        (
            "FREQ=MONTHLY;BYDAY=1MO,3MO",
            UndescribedReason::SeveralPositions,
            RepeatUnit::Month,
        ),
        (
            "FREQ=MONTHLY;BYDAY=-2FR",
            UndescribedReason::Ordinal,
            RepeatUnit::Month,
        ),
        (
            "FREQ=MONTHLY;BYMONTHDAY=20,-2",
            UndescribedReason::MixedMonthDays,
            RepeatUnit::Month,
        ),
        (
            "FREQ=DAILY;BYMONTH=3",
            UndescribedReason::LimitedMonths,
            RepeatUnit::Day,
        ),
        (
            "FREQ=MONTHLY;BYDAY=MO",
            UndescribedReason::UnknownPart,
            RepeatUnit::Month,
        ),
        (
            "FREQ=WEEKLY;INTERVAL=2;BYDAY=SU,MO;WKST=SU",
            UndescribedReason::WeekStart,
            RepeatUnit::Week,
        ),
        (
            "FREQ=HOURLY;BYDAY=MO",
            UndescribedReason::UnknownPart,
            RepeatUnit::Hour,
        ),
        (
            "FREQ=WEEKLY;INTERVAL=0",
            UndescribedReason::Unreadable,
            RepeatUnit::Week,
        ),
    ];
    for (rrule, expected, unit) in cases {
        let (got, got_unit) = reason(&ask(rrule));
        assert_eq!(got, expected, "{rrule}");
        assert_eq!(got_unit, Some(unit), "{rrule}");
    }
    assert_eq!(
        reason(&ask("FREQ=FORTNIGHTLY")),
        (UndescribedReason::Unreadable, None)
    );
    assert_eq!(
        reason(&ask("BYDAY=MO")),
        (UndescribedReason::Unreadable, None)
    );
    assert_eq!(
        reason(&ask("FREQ=WEEKLY;BYDAY=MO;byday=TU")),
        (UndescribedReason::Unreadable, None)
    );
}

#[test]
fn an_hourly_rule_and_a_prefix_are_read_like_everywhere_else() {
    let summary = ask("rrule:freq=hourly;interval=6");
    let (_, every, _, _) = described(&summary);
    assert_eq!(every.key, "recurrenceSummary.interval.hour");
    assert_eq!(every.count, Some(6));
    let summary = ask("FREQ=SECONDLY");
    let (_, every, _, _) = described(&summary);
    assert_eq!(every.key, "recurrenceSummary.every.second");
}

#[test]
fn every_key_the_module_emits_is_listed() {
    let rules = [
        "",
        "FREQ=DAILY",
        "FREQ=DAILY;INTERVAL=2",
        "FREQ=WEEKLY;BYDAY=MO,WE",
        "FREQ=WEEKLY;BYDAY=MO,TU,WE,TH,FR",
        "FREQ=WEEKLY;INTERVAL=2;BYDAY=TU",
        "FREQ=MONTHLY",
        "FREQ=MONTHLY;BYMONTHDAY=1,15",
        "FREQ=MONTHLY;BYMONTHDAY=-1",
        "FREQ=MONTHLY;BYDAY=2TU",
        "FREQ=MONTHLY;BYDAY=MO,TU,WE,TH,FR;BYSETPOS=-1",
        "FREQ=YEARLY",
        "FREQ=YEARLY;BYMONTH=3;BYDAY=2TU",
        "FREQ=WEEKLY;COUNT=3",
        "FREQ=WEEKLY;UNTIL=20270331T235959Z",
        "FREQ=SECONDLY",
        "FREQ=MINUTELY",
        "FREQ=HOURLY",
        "FREQ=MONTHLY;INTERVAL=2",
        "FREQ=YEARLY;INTERVAL=2",
    ];
    for rule in rules {
        let summary = ask_until(rule, Some("2027-03-29"));
        if let RecurrenceSummary::Described {
            key,
            every,
            on,
            end,
        } = &summary
        {
            for emitted in [Some(key.as_str())]
                .into_iter()
                .chain([Some(every.key.as_str())])
                .chain([on.as_ref().map(|p| p.key.as_str())])
                .chain([end.as_ref().map(|p| p.key.as_str())])
                .flatten()
            {
                assert!(
                    SUMMARY_KEYS.contains(&emitted),
                    "{rule} emits {emitted}, which SUMMARY_KEYS does not list"
                );
            }
        }
    }
}


#[test]
fn recurrence_summary_the_door_answers_in_json() {
    let question = |rrule: &str| RecurrenceSummaryQuestion {
        rrule: rrule.into(),
        start: "2026-06-15".into(),
        last_day: None,
    };
    let summary = describe_recurrence(&question("FREQ=WEEKLY;BYDAY=MO"));
    let (_, every, _, _) = described(&summary);
    assert_eq!(every.key, "recurrenceSummary.weekly.onDays");
    assert_eq!(every.weekdays, [Weekday::Monday]);
    assert_eq!(
        describe_recurrence(&question("")),
        RecurrenceSummary::NoRepeat
    );
}

#[test]
fn a_start_that_is_no_day_leaves_the_rule_undescribed() {
    assert_eq!(
        describe_recurrence(&RecurrenceSummaryQuestion {
            rrule: "FREQ=WEEKLY".into(),
            start: "soon".into(),
            last_day: None,
        }),
        RecurrenceSummary::Undescribed {
            reason: UndescribedReason::Unreadable,
            unit: Some(RepeatUnit::Week),
        }
    );
}

#[test]
fn no_part_of_a_rule_is_dropped_to_make_a_sentence() {
    for (rule, unit) in [
        ("FREQ=MONTHLY;BYMONTHDAY=13;BYDAY=FR", RepeatUnit::Month),
        (
            "FREQ=MONTHLY;BYDAY=MO,TU,WE,TH,FR;BYSETPOS=-1;BYMONTHDAY=13",
            RepeatUnit::Month,
        ),
        ("FREQ=YEARLY;BYMONTH=3;BYDAY=2TU;BYMONTHDAY=13", RepeatUnit::Year),
        (
            "FREQ=YEARLY;BYMONTH=3;BYDAY=SA,SU;BYSETPOS=1;BYMONTHDAY=13",
            RepeatUnit::Year,
        ),
    ] {
        assert_eq!(
            reason(&ask(rule)),
            (UndescribedReason::UnknownPart, Some(unit)),
            "{rule}"
        );
    }
    for (rule, named) in [
        ("FREQ=MONTHLY;BYMONTHDAY=13,14;BYSETPOS=1", UndescribedReason::SetPosition),
        (
            "FREQ=MONTHLY;BYSETPOS=1;BYDAY=FR;BYMONTHDAY=13",
            UndescribedReason::SetPosition,
        ),
        ("FREQ=MONTHLY;BYMONTHDAY=0;BYDAY=FR", UndescribedReason::Unreadable),
    ] {
        assert_eq!(reason(&ask(rule)), (named, Some(RepeatUnit::Month)), "{rule}");
    }
}
