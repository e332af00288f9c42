use cal_core::civil::Instant;
use cal_core::event_diff::{
    changed_fields, field_tokens, fields_from_tokens, kept_fields, take_kept_content, EventField,
};
use cal_core::{
    ColorLabelId, Event, EventRecurrence, Reminder, ReminderKind, SoundConfig,
};
use chrono::{TimeZone, Utc};

fn instant(year: i32, month: u32, day: u32, hour: u32) -> Instant {
    let t = Utc.with_ymd_and_hms(year, month, day, hour, 0, 0).unwrap();
    Instant::from_timestamp(t.timestamp(), 0).unwrap()
}

fn later(t: Instant, seconds: i64) -> Instant {
    Instant::from_timestamp(t.seconds() + seconds, t.nanos()).unwrap()
}

fn event() -> Event {
    let at = instant(2026, 11, 9, 15);
    Event {
        keep_attendees: false,
        keep_fields: Vec::new(),
        clear_attendees: false,
        organized_elsewhere: false,
        id: "ev".into(),
        calendar_id: "cal".into(),
        title: "Sync".into(),
        description: None,
        location: None,
        start: at,
        end: later(at, 30 * 60),
        all_day: false,
        recurrence: Some(EventRecurrence {
            rrule: "FREQ=WEEKLY".into(),
            exceptions: vec![later(at, 7 * 86400)],
            tzid: Some("Europe/Berlin".into()),
        }),
        color_label: None,
        color_hex: None,
        reminders: vec![
            Reminder {
                kind: ReminderKind::Relative { minutes_before: 10 },
                sound: None,
            },
            Reminder {
                kind: ReminderKind::Relative { minutes_before: 60 },
                sound: None,
            },
        ],
        sound: None,
        attendees: vec!["Bob <bob@x>".into()],
        send_invitations: false,
        truncate_tail_overrides: false,
        created_at: at,
        updated_at: at,
        etag: None,
        organizer: None,
        attendee_responses: Vec::new(),
        cancelled: false,
        scheduling_silenced: false,
    }
}

#[test]
fn an_unchanged_copy_has_no_changed_field() {
    let before = event();
    let mut edit = before.clone();
    edit.color_label = Some(ColorLabelId("label".into()));
    edit.description = Some(String::new());
    edit.title = " Sync\u{00A0}\n".into();
    edit.reminders.reverse();
    edit.reminders[0].sound = Some(SoundConfig::default());
    edit.reminders.push(Reminder {
        kind: ReminderKind::AppStart,
        sound: None,
    });
    edit.attendees = vec!["BOB@x".into()];
    edit.recurrence
        .as_mut()
        .unwrap()
        .exceptions
        .push(later(before.start, 7 * 86400));
    assert_eq!(changed_fields(&edit, &before), []);
}

#[test]
fn every_field_has_a_stable_token() {
    let tokens: Vec<&str> = EventField::ALL.iter().map(|f| f.token()).collect();
    assert_eq!(
        tokens,
        [
            "title",
            "description",
            "location",
            "start",
            "end",
            "all-day",
            "recurrence",
            "reminders",
            "attendees",
            "color"
        ]
    );
}

#[test]
fn each_stored_field_is_named() {
    let before = event();
    let mut edit = before.clone();
    edit.title = "Sync 2".into();
    edit.description = Some("Agenda".into());
    edit.location = Some("Room 3".into());
    edit.start = later(edit.start, -15 * 60);
    edit.end = later(edit.end, 15 * 60);
    edit.all_day = true;
    edit.recurrence.as_mut().unwrap().rrule = "FREQ=DAILY".into();
    edit.reminders.pop();
    edit.attendees.push("carol@x".into());
    edit.color_hex = Some("#336699".into());
    assert_eq!(
        changed_fields(&edit, &before),
        [
            EventField::Title,
            EventField::Description,
            EventField::Location,
            EventField::Start,
            EventField::End,
            EventField::AllDay,
            EventField::Recurrence,
            EventField::Reminders,
            EventField::Attendees,
            EventField::ColorHex,
        ]
    );
    let mut edit = before.clone();
    edit.reminders.push(before.reminders[0].clone());
    assert_eq!(changed_fields(&edit, &before), [EventField::Reminders]);
    let mut edit = before.clone();
    edit.recurrence = None;
    assert_eq!(changed_fields(&edit, &before), [EventField::Recurrence]);
}

fn opened() -> Event {
    Event {
        etag: Some("v1".into()),
        ..event()
    }
}

#[test]
fn the_fields_the_edit_left_alone_are_kept() {
    let edit = Event {
        title: "Sync, moved room".into(),
        ..opened()
    };
    assert_eq!(
        kept_fields(&edit, Some(&opened()), true),
        [
            EventField::Description,
            EventField::Location,
            EventField::Start,
            EventField::End,
            EventField::AllDay,
            EventField::Recurrence,
            EventField::Reminders,
        ]
    );
}

#[test]
fn the_invitees_and_the_colour_are_never_kept_here() {
    let kept = kept_fields(&opened(), Some(&opened()), true);
    assert!(!kept.contains(&EventField::Attendees), "{kept:?}");
    assert!(!kept.contains(&EventField::ColorHex), "{kept:?}");
    assert_eq!(kept.len(), 8, "everything else: {kept:?}");
}

#[test]
fn without_proof_of_the_opened_copy_nothing_is_kept() {
    let edit = opened();
    let newer = Event {
        etag: Some("v2".into()),
        title: "Renamed elsewhere".into(),
        ..opened()
    };
    assert_eq!(kept_fields(&edit, Some(&newer), true), []);
    let unknown = Event {
        etag: None,
        ..opened()
    };
    let unknown_edit = Event {
        etag: None,
        ..opened()
    };
    assert_eq!(kept_fields(&unknown_edit, Some(&unknown), true), []);
    assert_eq!(kept_fields(&edit, Some(&opened()), false), []);
    assert_eq!(kept_fields(&edit, None, true), []);
}

#[test]
fn an_unknown_kept_field_is_dropped_not_fatal() {
    let tokens = field_tokens(&[EventField::Title, EventField::Location]);
    assert_eq!(tokens, ["title", "location"]);
    let read: Vec<String> = vec!["title".into(), "zone".into(), "color".into()];
    assert_eq!(
        fields_from_tokens(&read),
        [EventField::Title, EventField::ColorHex]
    );
    assert!(field_tokens(&opened().keep_fields).is_empty());
    assert!(fields_from_tokens(&[]).is_empty());
}

#[test]
fn every_token_names_its_field_back() {
    for field in EventField::ALL {
        assert_eq!(EventField::from_token(field.token()), Some(field));
    }
    assert_eq!(EventField::from_token("color-hex"), None);
}

#[test]
fn a_create_in_place_of_an_update_takes_the_untouched_content_from_the_provider() {
    let provider = Event {
        title: "Kickoff".into(),
        description: Some("Own agenda".into()),
        location: Some("Room 7".into()),
        reminders: vec![Reminder {
            kind: ReminderKind::Relative { minutes_before: 30 },
            sound: None,
        }],
        attendees: vec!["carol@x".into()],
        ..event()
    };
    let moved = Event {
        start: later(event().start, 7 * 86400),
        end: later(event().end, 7 * 86400),
        reminders: vec![
            Reminder {
                kind: ReminderKind::Relative { minutes_before: 10 },
                sound: None,
            },
            Reminder {
                kind: ReminderKind::AppStart,
                sound: None,
            },
        ],
        keep_fields: vec![
            EventField::Title,
            EventField::Description,
            EventField::Location,
            EventField::Reminders,
        ],
        keep_attendees: true,
        ..event()
    };
    let created = take_kept_content(&moved, &provider);
    assert_eq!(created.title, "Kickoff");
    assert_eq!(created.description.as_deref(), Some("Own agenda"));
    assert_eq!(created.location.as_deref(), Some("Room 7"));
    assert_eq!(created.attendees, ["carol@x"]);
    assert_eq!(
        created
            .reminders
            .iter()
            .map(|r| r.kind.clone())
            .collect::<Vec<_>>(),
        [
            ReminderKind::Relative { minutes_before: 30 },
            ReminderKind::AppStart,
        ]
    );
    assert_eq!(created.start, moved.start, "the slot is the edit's");
    assert_eq!(created.end, moved.end);

    let retitled = Event {
        keep_fields: Vec::new(),
        keep_attendees: false,
        ..moved.clone()
    };
    let created = take_kept_content(&retitled, &provider);
    assert_eq!(created.title, moved.title);
    assert_eq!(created.location, moved.location);
    assert_eq!(created.attendees, moved.attendees);
}
