use cal_core::civil::Date;
use cal_core::{
    rrule_to_task_recurrence, task_recurrence_to_rrule, RecurrenceAnchor, RecurrenceEnd,
    RecurrenceFrequency, RecurrencePlacement, TaskRecurrence, Weekday,
};

fn rule(
    frequency: RecurrenceFrequency,
    interval: u32,
    day_of_week: Option<Vec<Weekday>>,
    day_of_month: Option<u8>,
    end: Option<RecurrenceEnd>,
) -> TaskRecurrence {
    TaskRecurrence {
        frequency,
        interval,
        day_of_week,
        day_of_month,
        end,
        anchor: RecurrenceAnchor::FromDate,
        placement: RecurrencePlacement::Schedule,
        fixed_dates: None,
    }
}

#[test]
fn serializes_the_modelled_axes() {
    assert_eq!(
        task_recurrence_to_rrule(&rule(RecurrenceFrequency::Daily, 1, None, None, None)),
        "FREQ=DAILY",
    );
    assert_eq!(
        task_recurrence_to_rrule(&rule(
            RecurrenceFrequency::Weekly,
            2,
            Some(vec![Weekday::Monday, Weekday::Wednesday]),
            None,
            None,
        )),
        "FREQ=WEEKLY;INTERVAL=2;BYDAY=MO,WE",
    );
    assert_eq!(
        task_recurrence_to_rrule(&rule(
            RecurrenceFrequency::Monthly,
            1,
            None,
            Some(15),
            Some(RecurrenceEnd::OnDate {
                date: Date::from_ymd_opt(2026, 6, 30).unwrap(),
            }),
        )),
        "FREQ=MONTHLY;BYMONTHDAY=15;UNTIL=20260630",
    );
    assert_eq!(
        task_recurrence_to_rrule(&rule(
            RecurrenceFrequency::Daily,
            3,
            None,
            None,
            Some(RecurrenceEnd::After { occurrences: 10 }),
        )),
        "FREQ=DAILY;INTERVAL=3;COUNT=10",
    );
}

#[test]
fn round_trips_through_rrule() {
    let cases = [
        rule(RecurrenceFrequency::Daily, 1, None, None, None),
        rule(
            RecurrenceFrequency::Weekly,
            2,
            Some(vec![Weekday::Monday, Weekday::Friday]),
            None,
            Some(RecurrenceEnd::After { occurrences: 5 }),
        ),
        rule(
            RecurrenceFrequency::Monthly,
            1,
            None,
            Some(15),
            Some(RecurrenceEnd::OnDate {
                date: Date::from_ymd_opt(2027, 1, 1).unwrap(),
            }),
        ),
        rule(RecurrenceFrequency::Yearly, 1, None, None, None),
    ];
    for original in cases {
        let back = rrule_to_task_recurrence(&task_recurrence_to_rrule(&original));
        assert_eq!(back.as_ref(), Some(&original));
    }
}

#[test]
fn parses_tolerantly_and_drops_unmodelled_parts() {
    let parsed =
        rrule_to_task_recurrence("RRULE:freq=MONTHLY;byday=2MO;bysetpos=1;bymonthday=10")
            .expect("has FREQ");
    assert_eq!(parsed.frequency, RecurrenceFrequency::Monthly);
    assert_eq!(parsed.day_of_week, None);
    assert_eq!(parsed.day_of_month, Some(10));

    let until = rrule_to_task_recurrence("FREQ=DAILY;UNTIL=20260630T235959Z").unwrap();
    assert_eq!(
        until.end,
        Some(RecurrenceEnd::OnDate {
            date: Date::from_ymd_opt(2026, 6, 30).unwrap(),
        }),
    );

    assert!(rrule_to_task_recurrence("INTERVAL=2").is_none());
}
