use cal_core::civil::Instant;
use cal_core::event_anchor::{plan_repairs, series_master_id, Anchored, Repair};
use cal_core::Event;
use chrono::{DateTime, Duration, TimeZone, Utc};

fn instant(t: DateTime<Utc>) -> Instant {
    Instant::from_timestamp(t.timestamp(), t.timestamp_subsec_nanos()).unwrap()
}

fn event(id: &str, calendar_id: &str, title: &str, start: DateTime<Utc>) -> Event {
    Event {
        id: id.into(),
        calendar_id: calendar_id.into(),
        title: title.into(),
        description: None,
        location: None,
        start: instant(start),
        end: instant(start + Duration::hours(1)),
        all_day: false,
        recurrence: None,
        color_label: None,
        color_hex: None,
        reminders: Vec::new(),
        sound: None,
        attendees: Vec::new(),
        send_invitations: false,
        truncate_tail_overrides: false,
        keep_attendees: false,
        keep_fields: Vec::new(),
        clear_attendees: false,
        organized_elsewhere: false,
        created_at: instant(start),
        updated_at: instant(start),
        etag: None,
        organizer: None,
        attendee_responses: Vec::new(),
        cancelled: false,
        scheduling_silenced: false,
    }
}

fn row(event_id: &str, calendar_id: &str, title: &str, start: DateTime<Utc>) -> Anchored {
    Anchored {
        event_id: event_id.into(),
        calendar_id: calendar_id.into(),
        title: title.into(),
        starts_at: start.to_rfc3339(),
    }
}

fn at(day: u32) -> DateTime<Utc> {
    Utc.with_ymd_and_hms(2026, 6, day, 9, 0, 0).unwrap()
}

fn week_of(day: u32) -> (Instant, Instant) {
    (
        instant(at(day) - Duration::days(1)),
        instant(at(day) + Duration::days(1)),
    )
}

#[test]
fn the_series_master_id_drops_an_occurrence_suffix() {
    assert_eq!(series_master_id("abc"), "abc");
    assert_eq!(
        series_master_id("https://dav/e.ics|uid-1::rid::2026-06-15T09:00:00+00:00"),
        "https://dav/e.ics|uid-1"
    );
}

#[test]
fn an_expanded_occurrence_id_is_not_its_series() {
    assert_eq!(
        series_master_id("https://dav/e.ics|uid-1@2026-06-15T09:00:00.000Z"),
        "https://dav/e.ics|uid-1@2026-06-15T09:00:00.000Z"
    );
}

#[test]
fn a_present_row_is_refreshed_only_when_something_differs() {
    let start = at(1);
    let events = [event("ev", "cal", "Zahnarzt", start)];
    assert!(plan_repairs(
        &[row("ev", "cal", "Zahnarzt", start)],
        "cal",
        &events,
        week_of(1)
    )
    .is_empty());
    assert_eq!(
        plan_repairs(
            &[row("ev", "cal", "Alt", start)],
            "cal",
            &events,
            week_of(1)
        ),
        vec![Repair::Refresh {
            event_id: "ev".into(),
            calendar_id: "cal".into(),
            title: "Zahnarzt".into(),
            starts_at: start.to_rfc3339(),
        }],
    );
}

#[test]
fn one_instant_spelled_three_ways_is_not_a_change() {
    let start = at(1);
    let events = [event("ev", "cal", "Zahnarzt", start)];
    for spelling in [
        "2026-06-01T09:00:00+00:00",
        "2026-06-01T09:00:00Z",
        "2026-06-01T09:00:00.000Z",
        "2026-06-01T11:00:00+02:00",
    ] {
        let row = Anchored {
            event_id: "ev".into(),
            calendar_id: "cal".into(),
            title: "Zahnarzt".into(),
            starts_at: spelling.into(),
        };
        assert!(
            plan_repairs(&[row], "cal", &events, week_of(1)).is_empty(),
            "{spelling} is the event's own start and must not read as a change",
        );
    }
}

#[test]
fn an_unreadable_start_is_rewritten() {
    let start = at(1);
    let events = [event("ev", "cal", "Zahnarzt", start)];
    let row = Anchored {
        event_id: "ev".into(),
        calendar_id: "cal".into(),
        title: "Zahnarzt".into(),
        starts_at: "irgendwann".into(),
    };
    assert_eq!(
        plan_repairs(&[row], "cal", &events, week_of(1)),
        vec![Repair::Refresh {
            event_id: "ev".into(),
            calendar_id: "cal".into(),
            title: "Zahnarzt".into(),
            starts_at: start.to_rfc3339(),
        }],
    );
}

#[test]
fn an_unanchored_row_is_adopted_when_its_event_appears() {
    let start = at(1);
    assert_eq!(
        plan_repairs(
            &[row("ev", "", "", start)],
            "cal",
            &[event("ev", "cal", "Zahnarzt", start)],
            week_of(1),
        ),
        vec![Repair::Refresh {
            event_id: "ev".into(),
            calendar_id: "cal".into(),
            title: "Zahnarzt".into(),
            starts_at: start.to_rfc3339(),
        }],
    );
}

#[test]
fn a_reminted_id_is_found_again() {
    let start = at(1);
    assert_eq!(
        plan_repairs(
            &[row("old", "cal", "Zahnarzt", start)],
            "cal",
            &[event("new", "cal", " zahnarzt ", start)],
            week_of(1),
        ),
        vec![Repair::Repoint {
            event_id: "old".into(),
            to: "new".into(),
        }],
    );
}

fn all_day_event(id: &str, calendar_id: &str, title: &str, start: DateTime<Utc>) -> Event {
    let mut ev = event(id, calendar_id, title, start);
    ev.all_day = true;
    ev
}

#[test]
fn an_all_day_row_is_found_on_its_day() {
    let stored = Utc.with_ymd_and_hms(2026, 6, 1, 0, 0, 0).unwrap();
    let now_at = Utc.with_ymd_and_hms(2026, 6, 1, 1, 0, 0).unwrap();
    assert_eq!(
        plan_repairs(
            &[row("old", "cal", "Geburtstag Anna", stored)],
            "cal",
            &[all_day_event("new", "cal", "Geburtstag Anna", now_at)],
            week_of(1),
        ),
        vec![Repair::Repoint {
            event_id: "old".into(),
            to: "new".into(),
        }],
        "an all-day copy on the same day is the same appointment",
    );
}

#[test]
fn a_timed_row_still_answers_only_to_its_instant() {
    let stored = Utc.with_ymd_and_hms(2026, 6, 1, 0, 0, 0).unwrap();
    let now_at = Utc.with_ymd_and_hms(2026, 6, 1, 1, 0, 0).unwrap();
    assert!(
        plan_repairs(
            &[row("old", "cal", "Zahnarzt", stored)],
            "cal",
            &[event("new", "cal", "Zahnarzt", now_at)],
            week_of(1),
        )
        .is_empty(),
        "same day, different hour, not all-day: not the same appointment",
    );
}

#[test]
fn two_all_day_copies_on_one_day_are_still_ambiguous() {
    let stored = Utc.with_ymd_and_hms(2026, 6, 1, 0, 0, 0).unwrap();
    assert!(plan_repairs(
        &[row("old", "cal", "Betriebsausflug", stored)],
        "cal",
        &[
            all_day_event("a", "cal", "Betriebsausflug", stored),
            all_day_event(
                "b",
                "cal",
                "Betriebsausflug",
                Utc.with_ymd_and_hms(2026, 6, 1, 2, 0, 0).unwrap()
            ),
        ],
        week_of(1),
    )
    .is_empty());
}

#[test]
fn another_calendars_row_is_never_touched() {
    let start = at(1);
    assert!(plan_repairs(
        &[row("work:evt", "work", "Jour fixe", start)],
        "private",
        &[event("private:evt", "private", "Jour fixe", start)],
        week_of(1),
    )
    .is_empty());
}

#[test]
fn ambiguity_repairs_nothing() {
    let start = at(1);
    assert!(plan_repairs(
        &[row("old", "cal", "Standup", start)],
        "cal",
        &[
            event("a", "cal", "Standup", start),
            event("b", "cal", "Standup", start),
        ],
        week_of(1),
    )
    .is_empty());
}

#[test]
fn a_master_and_its_own_override_are_one_answer() {
    let start = at(1);
    assert_eq!(
        plan_repairs(
            &[row("old", "cal", "Standup", start)],
            "cal",
            &[
                event("master", "cal", "Standup", start),
                event(
                    "master::rid::2026-06-01T09:00:00+00:00",
                    "cal",
                    "Standup",
                    start
                ),
            ],
            week_of(1),
        ),
        vec![Repair::Repoint {
            event_id: "old".into(),
            to: "master".into(),
        }],
    );
}

#[test]
fn a_row_bound_to_an_occurrence_is_left_on_it() {
    let start = at(1);
    let occurrence = "master::rid::2026-06-01T09:00:00+00:00";
    assert!(plan_repairs(
        &[row(occurrence, "cal", "Standup", start)],
        "cal",
        &[event(occurrence, "cal", "Standup", start)],
        week_of(1),
    )
    .is_empty());
}

#[test]
fn a_row_outside_what_the_batch_covers_is_left_alone() {
    let start = at(1);
    assert!(plan_repairs(
        &[row("old", "cal", "Standup", start)],
        "cal",
        &[event("other", "cal", "Standup", at(20))],
        week_of(20),
    )
    .is_empty());
}

#[test]
fn the_batchs_own_events_widen_the_window() {
    let dtstart = Utc.with_ymd_and_hms(2026, 1, 5, 9, 0, 0).unwrap();
    assert_eq!(
        plan_repairs(
            &[row("old", "cal", "Standup", dtstart)],
            "cal",
            &[event("new", "cal", "Standup", dtstart)],
            week_of(20),
        ),
        vec![Repair::Repoint {
            event_id: "old".into(),
            to: "new".into(),
        }],
    );
}

#[test]
fn a_refreshed_row_is_not_refreshed_again() {
    let start = at(1);
    let events = [event("ev", "cal", "Zahnarzt", start)];
    let first = plan_repairs(&[row("ev", "cal", "Alt", start)], "cal", &events, week_of(1));
    let Repair::Refresh {
        event_id,
        calendar_id,
        title,
        starts_at,
    } = first[0].clone()
    else {
        panic!("a refresh");
    };
    let written = Anchored {
        event_id,
        calendar_id,
        title,
        starts_at,
    };
    assert!(plan_repairs(&[written], "cal", &events, week_of(1)).is_empty());
}
