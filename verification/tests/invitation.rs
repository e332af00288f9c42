use cal_core::civil::Instant;
use cal_core::event_diff::EventField;
use cal_core::invitation::{reply_only_change, reply_only_verdict, ReplyOnlyVerdict};
use cal_core::{ColorLabelId, Event, Reminder, ReminderKind};
use chrono::{TimeZone, Utc};

fn instant(year: i32, month: u32, day: u32, hour: u32) -> Instant {
    let t = Utc.with_ymd_and_hms(year, month, day, hour, 0, 0).unwrap();
    Instant::from_timestamp(t.timestamp(), 0).unwrap()
}

fn later(t: Instant, seconds: i64) -> Instant {
    Instant::from_timestamp(t.seconds() + seconds, t.nanos()).unwrap()
}

fn invitation() -> Event {
    Event {
        keep_attendees: false,
        clear_attendees: false,
        organized_elsewhere: true,
        id: "ev-1".into(),
        calendar_id: "cal".into(),
        title: "Planning".into(),
        description: None,
        location: Some("Room 3".into()),
        start: instant(2026, 6, 15, 7),
        end: instant(2026, 6, 15, 8),
        all_day: false,
        recurrence: None,
        color_label: None,
        color_hex: None,
        reminders: vec![Reminder {
            kind: ReminderKind::Relative { minutes_before: 10 },
            sound: None,
        }],
        sound: None,
        attendees: vec!["bob@example.com".into()],
        send_invitations: false,
        truncate_tail_overrides: false,
        keep_fields: Vec::new(),
        created_at: instant(2026, 6, 1, 9),
        updated_at: instant(2026, 6, 1, 9),
        etag: Some("\"e1\"".into()),
        organizer: Some("boss@example.com".into()),
        attendee_responses: Vec::new(),
        cancelled: false,
        scheduling_silenced: false,
    }
}

#[test]
fn the_attendees_own_reminders_are_allowed_and_the_rest_is_not() {
    let before = invitation();

    let mut edit = before.clone();
    edit.reminders.push(Reminder {
        kind: ReminderKind::Relative { minutes_before: 60 },
        sound: None,
    });
    edit.color_label = Some(ColorLabelId("label".into()));
    edit.sound = None;
    assert_eq!(reply_only_change(&edit, &before), None);
    assert_eq!(
        reply_only_verdict(&edit, &before, true),
        ReplyOnlyVerdict::Allowed
    );

    let mut edit = before.clone();
    edit.title = "Planning, moved".into();
    edit.location = Some("Room 4".into());
    edit.reminders.clear();
    assert_eq!(reply_only_change(&edit, &before), Some(EventField::Title));
    assert_eq!(
        reply_only_verdict(&edit, &before, true),
        ReplyOnlyVerdict::Refused(EventField::Title)
    );
}

#[test]
fn a_difference_against_a_copy_the_caller_never_saw_is_the_organizers() {
    let before = invitation();
    let mut edit = before.clone();
    edit.start = later(before.start, 3600);
    assert_eq!(
        reply_only_verdict(&edit, &before, false),
        ReplyOnlyVerdict::Stale
    );
}
