use cal_core::civil::{Date, Instant};
use cal_core::{
    advance, completion_record_for, next_recurrence_instance, MonthDay, NewTask, RecurrenceAnchor,
    RecurrenceEnd, RecurrenceFrequency, RecurrencePlacement, Task, TaskEffort, TaskPriority,
    TaskRecurrence, TaskStatus, Weekday,
};
use chrono::{Datelike, TimeZone, Utc};

fn nine_o_clock(day: Date) -> Instant {
    let at = Utc
        .with_ymd_and_hms(day.year(), day.month(), day.day(), 9, 0, 0)
        .unwrap();
    Instant::from_timestamp(at.timestamp(), 0).unwrap()
}

fn spawn(t: &Task) -> Option<NewTask> {
    let at = Utc
        .timestamp_opt(t.completed_at.unwrap().seconds(), 0)
        .unwrap();
    next_recurrence_instance(
        t,
        Date::from_ymd_opt(at.year(), at.month(), at.day()).unwrap(),
    )
}

fn template(recurrence: TaskRecurrence, completed: Date) -> Task {
    Task {
        assignees: Vec::new(),
        id: "t".into(),
        list_id: "L".into(),
        title: "Chore".into(),
        description: None,
        status: TaskStatus::Completed,
        priority: TaskPriority::Medium,
        effort: TaskEffort::Medium,
        scheduled_date: None,
        scheduled_time: None,
        scheduled_end_time: None,
        deadline_date: None,
        deadline_time: None,
        deadline_reminder_days: None,
        recurrence: Some(recurrence),
        resurface_date: None,
        series_id: Some("series-1".into()),
        parent_id: None,
        section_id: None,
        color_label: None,
        reminders: Vec::new(),
        sound: None,
        created_at: Instant::from_timestamp(1_767_225_600, 0).unwrap(),
        updated_at: Instant::from_timestamp(1_767_225_600, 0).unwrap(),
        completed_at: Some(nine_o_clock(completed)),
        etag: None,
    }
}

fn rule(
    frequency: RecurrenceFrequency,
    interval: u32,
    anchor: RecurrenceAnchor,
    placement: RecurrencePlacement,
    fixed_dates: Option<Vec<MonthDay>>,
) -> TaskRecurrence {
    TaskRecurrence {
        frequency,
        interval,
        day_of_week: None,
        day_of_month: None,
        end: None,
        anchor,
        placement,
        fixed_dates,
    }
}

#[test]
fn no_recurrence_spawns_nothing() {
    let mut t = template(
        rule(
            RecurrenceFrequency::Daily,
            1,
            RecurrenceAnchor::FromDate,
            RecurrencePlacement::Schedule,
            None,
        ),
        Date::from_ymd_opt(2026, 5, 10).unwrap(),
    );
    t.recurrence = None;
    assert!(spawn(&t).is_none());
}

#[test]
fn completion_record_is_a_terminal_done_copy() {
    let mut t = template(
        rule(
            RecurrenceFrequency::Daily,
            1,
            RecurrenceAnchor::FromDate,
            RecurrencePlacement::Schedule,
            None,
        ),
        Date::from_ymd_opt(2026, 5, 10).unwrap(),
    );
    t.title = "Take pills".into();
    t.scheduled_date = Some(Date::from_ymd_opt(2026, 5, 10).unwrap());
    let rec = completion_record_for(&t);
    assert_eq!(rec.title, "Take pills");
    assert_eq!(rec.status, TaskStatus::Completed);
    assert_eq!(
        rec.scheduled_date,
        Some(Date::from_ymd_opt(2026, 5, 10).unwrap())
    );
    assert!(rec.recurrence.is_none());
    assert!(rec.series_id.is_none());
    assert!(rec.resurface_date.is_none());
    assert!(rec.reminders.is_empty());
}

#[test]
fn backlog_immediate_is_undated_and_visible_now() {
    let t = template(
        rule(
            RecurrenceFrequency::Daily,
            0,
            RecurrenceAnchor::FromCompletion,
            RecurrencePlacement::Backlog,
            None,
        ),
        Date::from_ymd_opt(2026, 5, 10).unwrap(),
    );
    let next = spawn(&t).unwrap();
    assert_eq!(next.scheduled_date, None);
    assert_eq!(next.resurface_date, None);
    assert_eq!(next.series_id.as_deref(), Some("series-1"));
}

#[test]
fn backlog_fixed_dates_resurfaces_on_next_season() {
    let t = template(
        rule(
            RecurrenceFrequency::Yearly,
            1,
            RecurrenceAnchor::FromCompletion,
            RecurrencePlacement::Backlog,
            Some(vec![
                MonthDay { month: 4, day: 1 },
                MonthDay { month: 10, day: 1 },
            ]),
        ),
        Date::from_ymd_opt(2026, 5, 10).unwrap(),
    );
    let next = spawn(&t).unwrap();
    assert_eq!(
        next.resurface_date,
        Some(Date::from_ymd_opt(2026, 10, 1).unwrap()),
    );
}

#[test]
fn backlog_interval_resurfaces_one_interval_after_completion() {
    let t = template(
        rule(
            RecurrenceFrequency::Daily,
            1,
            RecurrenceAnchor::FromCompletion,
            RecurrencePlacement::Backlog,
            None,
        ),
        Date::from_ymd_opt(2026, 6, 21).unwrap(),
    );
    let next =
        next_recurrence_instance(&t, Date::from_ymd_opt(2026, 6, 21).unwrap()).unwrap();
    assert_eq!(
        next.resurface_date,
        Some(Date::from_ymd_opt(2026, 6, 22).unwrap()),
    );
    assert_eq!(next.scheduled_date, None);
}

#[test]
fn missed_days_collapse_into_todays_turn() {
    let mut t = template(
        rule(
            RecurrenceFrequency::Daily,
            1,
            RecurrenceAnchor::FromDate,
            RecurrencePlacement::Schedule,
            None,
        ),
        Date::from_ymd_opt(2026, 8, 12).unwrap(),
    );
    t.title = "Take pills".into();
    t.scheduled_date = Some(Date::from_ymd_opt(2026, 8, 7).unwrap());
    let next =
        next_recurrence_instance(&t, Date::from_ymd_opt(2026, 8, 12).unwrap()).unwrap();
    assert_eq!(
        next.scheduled_date,
        Some(Date::from_ymd_opt(2026, 8, 12).unwrap()),
    );
}

#[test]
fn one_missed_day_still_leaves_the_completion_days_turn() {
    let mut t = template(
        rule(
            RecurrenceFrequency::Daily,
            1,
            RecurrenceAnchor::FromDate,
            RecurrencePlacement::Schedule,
            None,
        ),
        Date::from_ymd_opt(2026, 8, 12).unwrap(),
    );
    t.scheduled_date = Some(Date::from_ymd_opt(2026, 8, 11).unwrap());
    let next =
        next_recurrence_instance(&t, Date::from_ymd_opt(2026, 8, 12).unwrap()).unwrap();
    assert_eq!(
        next.scheduled_date,
        Some(Date::from_ymd_opt(2026, 8, 12).unwrap()),
    );
}

#[test]
fn on_time_and_early_completions_are_untouched() {
    let mut t = template(
        rule(
            RecurrenceFrequency::Daily,
            1,
            RecurrenceAnchor::FromDate,
            RecurrencePlacement::Schedule,
            None,
        ),
        Date::from_ymd_opt(2026, 8, 12).unwrap(),
    );
    t.scheduled_date = Some(Date::from_ymd_opt(2026, 8, 12).unwrap());
    let on_time =
        next_recurrence_instance(&t, Date::from_ymd_opt(2026, 8, 12).unwrap()).unwrap();
    assert_eq!(
        on_time.scheduled_date,
        Some(Date::from_ymd_opt(2026, 8, 13).unwrap()),
    );

    t.scheduled_date = Some(Date::from_ymd_opt(2026, 8, 20).unwrap());
    let early =
        next_recurrence_instance(&t, Date::from_ymd_opt(2026, 8, 12).unwrap()).unwrap();
    assert_eq!(
        early.scheduled_date,
        Some(Date::from_ymd_opt(2026, 8, 21).unwrap()),
    );
}

#[test]
fn weekly_catch_up_keeps_the_current_periods_turn() {
    let mut t = template(
        rule(
            RecurrenceFrequency::Weekly,
            1,
            RecurrenceAnchor::FromDate,
            RecurrencePlacement::Schedule,
            None,
        ),
        Date::from_ymd_opt(2026, 8, 12).unwrap(),
    );
    t.scheduled_date = Some(Date::from_ymd_opt(2026, 8, 3).unwrap());
    let next =
        next_recurrence_instance(&t, Date::from_ymd_opt(2026, 8, 12).unwrap()).unwrap();
    assert_eq!(
        next.scheduled_date,
        Some(Date::from_ymd_opt(2026, 8, 10).unwrap()),
    );
}

#[test]
fn monthly_catch_up_does_not_skip_the_month_just_started() {
    let mut t = template(
        rule(
            RecurrenceFrequency::Monthly,
            1,
            RecurrenceAnchor::FromDate,
            RecurrencePlacement::Schedule,
            None,
        ),
        Date::from_ymd_opt(2026, 8, 2).unwrap(),
    );
    t.scheduled_date = Some(Date::from_ymd_opt(2026, 7, 1).unwrap());
    let next =
        next_recurrence_instance(&t, Date::from_ymd_opt(2026, 8, 2).unwrap()).unwrap();
    assert_eq!(
        next.scheduled_date,
        Some(Date::from_ymd_opt(2026, 8, 1).unwrap()),
    );
}

#[test]
fn the_catch_up_costs_at_most_one_further_tick() {
    let mut t = template(
        rule(
            RecurrenceFrequency::Monthly,
            1,
            RecurrenceAnchor::FromDate,
            RecurrencePlacement::Schedule,
            None,
        ),
        Date::from_ymd_opt(2026, 8, 2).unwrap(),
    );
    t.scheduled_date = Some(Date::from_ymd_opt(2026, 1, 1).unwrap());
    let first =
        next_recurrence_instance(&t, Date::from_ymd_opt(2026, 8, 2).unwrap()).unwrap();
    assert_eq!(
        first.scheduled_date,
        Some(Date::from_ymd_opt(2026, 8, 1).unwrap()),
    );
    t.scheduled_date = first.scheduled_date;
    let second =
        next_recurrence_instance(&t, Date::from_ymd_opt(2026, 8, 2).unwrap()).unwrap();
    assert_eq!(
        second.scheduled_date,
        Some(Date::from_ymd_opt(2026, 9, 1).unwrap()),
    );
}

#[test]
fn catch_up_walks_named_weekdays() {
    let mut r = rule(
        RecurrenceFrequency::Weekly,
        1,
        RecurrenceAnchor::FromDate,
        RecurrencePlacement::Schedule,
        None,
    );
    r.day_of_week = Some(vec![Weekday::Monday, Weekday::Thursday]);
    let mut t = template(r, Date::from_ymd_opt(2026, 8, 12).unwrap());
    t.scheduled_date = Some(Date::from_ymd_opt(2026, 8, 3).unwrap());
    let next =
        next_recurrence_instance(&t, Date::from_ymd_opt(2026, 8, 12).unwrap()).unwrap();
    assert_eq!(
        next.scheduled_date,
        Some(Date::from_ymd_opt(2026, 8, 10).unwrap()),
    );
}

#[test]
fn catch_up_walks_fixed_dates() {
    let mut t = template(
        rule(
            RecurrenceFrequency::Yearly,
            1,
            RecurrenceAnchor::FromDate,
            RecurrencePlacement::Schedule,
            Some(vec![MonthDay { month: 4, day: 1 }]),
        ),
        Date::from_ymd_opt(2026, 8, 12).unwrap(),
    );
    t.scheduled_date = Some(Date::from_ymd_opt(2024, 4, 1).unwrap());
    let next =
        next_recurrence_instance(&t, Date::from_ymd_opt(2026, 8, 12).unwrap()).unwrap();
    assert_eq!(
        next.scheduled_date,
        Some(Date::from_ymd_opt(2026, 4, 1).unwrap()),
    );
}

#[test]
fn weekly_interval_survives_naming_the_weekdays() {
    let mut r = rule(
        RecurrenceFrequency::Weekly,
        2,
        RecurrenceAnchor::FromDate,
        RecurrencePlacement::Schedule,
        None,
    );
    r.day_of_week = Some(vec![Weekday::Monday]);
    assert_eq!(
        advance(Date::from_ymd_opt(2026, 8, 3).unwrap(), &r),
        Date::from_ymd_opt(2026, 8, 17),
    );
}

#[test]
fn weekly_interval_keeps_every_listed_day_of_its_own_week() {
    let mut r = rule(
        RecurrenceFrequency::Weekly,
        2,
        RecurrenceAnchor::FromDate,
        RecurrencePlacement::Schedule,
        None,
    );
    r.day_of_week = Some(vec![Weekday::Monday, Weekday::Thursday]);
    let mon = Date::from_ymd_opt(2026, 8, 3).unwrap();
    let thu = advance(mon, &r).unwrap();
    assert_eq!(thu, Date::from_ymd_opt(2026, 8, 6).unwrap());
    assert_eq!(advance(thu, &r), Date::from_ymd_opt(2026, 8, 17),);
}

#[test]
fn weekly_interval_one_is_unchanged() {
    let mut r = rule(
        RecurrenceFrequency::Weekly,
        1,
        RecurrenceAnchor::FromDate,
        RecurrencePlacement::Schedule,
        None,
    );
    r.day_of_week = Some(vec![Weekday::Monday, Weekday::Thursday]);
    let mon = Date::from_ymd_opt(2026, 8, 3).unwrap();
    assert_eq!(advance(mon, &r), Date::from_ymd_opt(2026, 8, 6));
    let thu = Date::from_ymd_opt(2026, 8, 6).unwrap();
    assert_eq!(advance(thu, &r), Date::from_ymd_opt(2026, 8, 10));
    let sun = Date::from_ymd_opt(2026, 8, 9).unwrap();
    assert_eq!(advance(sun, &r), Date::from_ymd_opt(2026, 8, 10));
}

#[test]
fn catch_up_stops_at_the_rules_end() {
    let mut r = rule(
        RecurrenceFrequency::Daily,
        1,
        RecurrenceAnchor::FromDate,
        RecurrencePlacement::Schedule,
        None,
    );
    r.end = Some(RecurrenceEnd::OnDate {
        date: Date::from_ymd_opt(2026, 8, 9).unwrap(),
    });
    let mut t = template(r, Date::from_ymd_opt(2026, 8, 12).unwrap());
    t.scheduled_date = Some(Date::from_ymd_opt(2026, 8, 7).unwrap());
    assert!(
        next_recurrence_instance(&t, Date::from_ymd_opt(2026, 8, 12).unwrap()).is_none()
    );
}

#[test]
fn scheduled_from_completion_advances_by_interval() {
    let mut t = template(
        rule(
            RecurrenceFrequency::Weekly,
            1,
            RecurrenceAnchor::FromCompletion,
            RecurrencePlacement::Schedule,
            None,
        ),
        Date::from_ymd_opt(2026, 5, 10).unwrap(),
    );
    t.scheduled_date = Some(Date::from_ymd_opt(2026, 5, 1).unwrap());
    let next = spawn(&t).unwrap();
    assert_eq!(
        next.scheduled_date,
        Some(Date::from_ymd_opt(2026, 5, 17).unwrap()),
    );
    assert_eq!(next.resurface_date, None);
}

#[test]
fn a_month_is_advanced_to_its_last_day_where_it_is_shorter() {
    let r = rule(
        RecurrenceFrequency::Monthly,
        1,
        RecurrenceAnchor::FromDate,
        RecurrencePlacement::Schedule,
        None,
    );
    assert_eq!(
        advance(Date::from_ymd_opt(2026, 1, 31).unwrap(), &r),
        Date::from_ymd_opt(2026, 2, 28),
    );
    let r = rule(
        RecurrenceFrequency::Yearly,
        4,
        RecurrenceAnchor::FromDate,
        RecurrencePlacement::Schedule,
        None,
    );
    assert_eq!(
        advance(Date::from_ymd_opt(2024, 2, 29).unwrap(), &r),
        Date::from_ymd_opt(2028, 2, 29),
    );
}

#[test]
fn a_counted_rule_is_handed_on_as_it_is() {
    let mut r = rule(
        RecurrenceFrequency::Daily,
        1,
        RecurrenceAnchor::FromDate,
        RecurrencePlacement::Schedule,
        None,
    );
    r.end = Some(RecurrenceEnd::After { occurrences: 1 });
    let mut t = template(r, Date::from_ymd_opt(2026, 8, 12).unwrap());
    t.scheduled_date = Some(Date::from_ymd_opt(2026, 8, 12).unwrap());
    let next = spawn(&t).unwrap();
    assert_eq!(
        next.recurrence.unwrap().end,
        Some(RecurrenceEnd::After { occurrences: 1 })
    );
}
