use cal_core::civil::{Date, Instant, TimeOfDay};
use cal_core::text::{split, trim, Blank};
use cal_core::{
    AdapterSource, Calendar, ColorLabelId, ColorSource, Container, ContainerColor, DayLog, Error,
    EventLocalReminders, Reminder, ReminderKind, SoundConfig, SoundSource, TaskList, Weekday,
};

fn instant(seconds: i64) -> Instant {
    Instant::from_timestamp(seconds, 0).unwrap()
}

#[test]
fn every_error_says_what_went_wrong() {
    for (error, said) in [
        (Error::authentication("x"), "authentication failed: x"),
        (Error::Forbidden("x".into()), "access denied: x"),
        (Error::NotFound("x".into()), "resource not found: x"),
        (
            Error::Conflict("x".into()),
            "conflict (ETag / precondition failed): x",
        ),
        (Error::network("x"), "network error: x"),
        (Error::protocol("x"), "protocol error: x"),
        (Error::invalid_input("x"), "invalid input: x"),
        (
            Error::unsupported("x"),
            "operation not supported by adapter: x",
        ),
        (Error::internal("x"), "internal error: x"),
    ] {
        assert_eq!(error.message(), said);
    }
}

#[test]
fn an_untouched_day_is_empty() {
    let mut log = DayLog::empty(Date::from_ymd_opt(2026, 5, 21).unwrap(), instant(0));
    assert!(log.is_empty());
    log.rating = Some(3);
    assert!(!log.is_empty());
    log.rating = None;
    log.markers.push("m".into());
    assert!(!log.is_empty());
}

#[test]
fn local_reminders_without_a_reminder_are_empty() {
    let mut row = EventLocalReminders {
        calendar_id: "cal".into(),
        event_id: "ev".into(),
        reminders: vec![],
        title: "t".into(),
        starts_at: "2026-05-21T09:00:00Z".into(),
        updated_at: "2026-05-21T09:00:00Z".into(),
    };
    assert!(row.is_empty());
    row.reminders.push(Reminder {
        kind: ReminderKind::AppStart,
        sound: None,
    });
    assert!(!row.is_empty());
}

#[test]
fn a_sound_is_the_systems_unless_set() {
    assert_eq!(
        SoundConfig::default(),
        SoundConfig {
            source: SoundSource::System,
            volume: 80,
        }
    );
    let mut calendar = Calendar {
        id: "c".into(),
        name: "n".into(),
        default_sound: None,
    };
    assert_eq!(calendar.default_sound(), None);
    let silent = SoundConfig {
        source: SoundSource::Silent,
        volume: 0,
    };
    calendar.default_sound = Some(silent.clone());
    assert_eq!(Container::default_sound(&calendar), Some(&silent));
    let list = TaskList {
        id: "l".into(),
        name: "n".into(),
        default_sound: Some(silent.clone()),
    };
    assert_eq!(Container::default_sound(&list), Some(&silent));
}

#[test]
fn reminders_are_compared_by_kind() {
    let ten = ReminderKind::Relative { minutes_before: 10 };
    assert!(ten.same_kind(&ReminderKind::Relative { minutes_before: 10 }));
    assert!(!ten.same_kind(&ReminderKind::Email { minutes_before: 10 }));
    assert!(ReminderKind::Absolute { at: instant(5) }
        .same_kind(&ReminderKind::Absolute { at: instant(5) }));
    assert!(ReminderKind::AppStart.is_app_start());
    assert!(!ten.is_app_start());
}

#[test]
fn a_colour_knows_where_it_came_from() {
    assert_eq!(ContainerColor::native("#112233").source, ColorSource::Native);
    let custom = ContainerColor::custom("#112233");
    assert_eq!((custom.hex.as_str(), custom.source), ("#112233", ColorSource::Custom));
    assert_eq!(ColorLabelId::new("label").as_str(), "label");
    assert_eq!(AdapterSource::new("caldav").as_str(), "caldav");
}

#[test]
fn a_day_is_a_day_of_the_calendar() {
    assert!(Date::from_ymd_opt(2026, 2, 29).is_none());
    assert!(Date::from_ymd_opt(2028, 2, 29).is_some());
    assert!(Date::from_ymd_opt(1900, 2, 29).is_none());
    assert!(Date::from_ymd_opt(2026, 13, 1).is_none());
    assert!(Date::from_ymd_opt(2026, 1, 0).is_none());
    assert!(Date::from_ymd_opt(262_142, 12, 31).is_some());
    assert!(Date::from_ymd_opt(262_143, 1, 1).is_none());
    let day = Date::from_ymd_opt(2026, 5, 21).unwrap();
    assert_eq!((day.year(), day.month(), day.day()), (2026, 5, 21));
    assert!(day.before(&Date::from_ymd_opt(2026, 6, 1).unwrap()));
    assert!(day.same_day(&day));
}

#[test]
fn an_instant_counts_from_the_epoch() {
    let t = Instant::from_timestamp(-1, 500_000_000).unwrap();
    assert_eq!((t.seconds(), t.nanos(), t.millis()), (-1, 500_000_000, -500));
    assert_eq!(Instant::from_timestamp_millis(-500), Some(t));
    assert!(t.before(&instant(0)));
    assert!(Instant::from_timestamp(0, 2_000_000_000).is_none());
    assert!(Instant::from_timestamp(i64::MAX, 0).is_none());
    assert_eq!(instant(0).day_number() - instant(-1).day_number(), 1);
    let noon = TimeOfDay {
        seconds: 43_200,
        nanos: 0,
    };
    assert!(noon.before(&TimeOfDay {
        seconds: 43_200,
        nanos: 1,
    }));
}

#[test]
fn weekdays_count_from_monday() {
    assert_eq!(Weekday::Monday.days_from_monday(), 0);
    assert_eq!(Weekday::Sunday.days_from_monday(), 6);
}

#[test]
fn texts_are_split_and_trimmed() {
    assert_eq!(split("a,,b", ','), ["a", "", "b"]);
    assert_eq!(split("", ','), [""]);
    assert_eq!(trim("\u{2003} a b\n", Blank::Unicode), "a b");
}
