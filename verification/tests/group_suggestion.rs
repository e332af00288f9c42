use cal_core::{
    find_group_suggestions, is_meeting_calendar, suggest_group_mate, EventGroup, EventGroupMember,
    GroupSuggestion, SuggestibleEvent, SuggestionDecline, MEETINGS_CALENDAR_SUFFIX,
};

fn ev(calendar_id: &str, series_id: &str, title: &str, start: &str) -> SuggestibleEvent {
    SuggestibleEvent {
        calendar_id: calendar_id.into(),
        series_id: series_id.into(),
        title: title.into(),
        start: start.into(),
        all_day: false,
    }
}

fn all_day(calendar_id: &str, series_id: &str, title: &str, start: &str) -> SuggestibleEvent {
    SuggestibleEvent {
        all_day: true,
        ..ev(calendar_id, series_id, title, start)
    }
}

fn decline(a: (&str, &str), b: (&str, &str)) -> SuggestionDecline {
    SuggestionDecline::new(a, b, "2026-08-09T12:00:00Z".into())
}

fn day() -> Vec<SuggestibleEvent> {
    vec![
        ev("work", "ev-a", "Wochenplanung", "2026-08-10T08:00:00Z"),
        ev("private", "ev-b", "Wochenplanung", "2026-08-10T08:00:00Z"),
        ev("work", "ev-x", "Zahnarzt", "2026-08-10T11:00:00Z"),
    ]
}

fn anchor() -> SuggestibleEvent {
    ev("work", "ev-a", "Wochenplanung", "2026-08-10T08:00:00Z")
}

#[test]
fn it_finds_the_same_appointment_in_another_calendar() {
    let candidates = [
        ev("private", "ev-x", "Standup", "2026-08-10T08:00:00Z"),
        ev(
            "private",
            "ev-b",
            "  wochenplanung ",
            "2026-08-10T08:00:00Z",
        ),
    ];
    assert_eq!(suggest_group_mate(&anchor(), &candidates), Some(1));
}

#[test]
fn a_meeting_that_merely_overlaps_is_refused() {
    let candidates = [ev(
        "private",
        "ev-b",
        "Wochenplanung",
        "2026-08-10T07:30:00Z",
    )];
    assert_eq!(suggest_group_mate(&anchor(), &candidates), None);
}

#[test]
fn a_second_row_in_the_same_calendar_is_refused() {
    let candidates = [ev("work", "ev-b", "Wochenplanung", "2026-08-10T08:00:00Z")];
    assert_eq!(suggest_group_mate(&anchor(), &candidates), None);
}

#[test]
fn a_different_name_at_the_same_time_is_refused() {
    let candidates = [ev("private", "ev-b", "Zahnarzt", "2026-08-10T08:00:00Z")];
    assert_eq!(suggest_group_mate(&anchor(), &candidates), None);
}

#[test]
fn a_nameless_event_is_never_a_copy() {
    let nameless = SuggestibleEvent {
        title: "   ".into(),
        ..anchor()
    };
    let candidates = [ev("private", "ev-b", "", "2026-08-10T08:00:00Z")];
    assert_eq!(suggest_group_mate(&nameless, &candidates), None);
}

#[test]
fn all_day_rows_agree_on_the_day_not_the_instant() {
    let anchor = all_day("work", "ev-a", "Urlaub", "2026-08-10");
    let candidates = [all_day("private", "ev-b", "Urlaub", "2026-08-10T00:00:00Z")];
    assert_eq!(suggest_group_mate(&anchor, &candidates), Some(0));
}

#[test]
fn a_timed_row_never_matches_an_all_day_one_on_its_day() {
    let anchor = all_day("work", "ev-a", "Urlaub", "2026-08-10");
    let candidates = [ev("private", "ev-b", "Urlaub", "2026-08-10T09:00:00Z")];
    assert_eq!(suggest_group_mate(&anchor, &candidates), None);
}

#[test]
fn the_first_of_several_wins() {
    let candidates = [
        ev("private", "ev-b", "Wochenplanung", "2026-08-10T08:00:00Z"),
        ev("colleague", "ev-c", "Wochenplanung", "2026-08-10T08:00:00Z"),
    ];
    assert_eq!(suggest_group_mate(&anchor(), &candidates), Some(0));
}

#[test]
fn an_unreadable_start_matches_nothing() {
    let broken = ev("work", "ev-a", "Wochenplanung", "irgendwann");
    let same_but_broken = [ev("private", "ev-b", "Wochenplanung", "irgendwann")];
    assert_eq!(suggest_group_mate(&broken, &same_but_broken), None);
    let sound = [ev(
        "private",
        "ev-b",
        "Wochenplanung",
        "2026-08-10T08:00:00Z",
    )];
    assert_eq!(suggest_group_mate(&broken, &sound), None);
}

#[test]
fn it_spots_the_copy_in_another_calendar() {
    assert_eq!(
        find_group_suggestions(&day(), &[], &[]),
        vec![GroupSuggestion {
            first: 0,
            second: 1
        }],
    );
}

#[test]
fn a_videoconference_meeting_is_never_offered_on_a_resemblance() {
    let with_meeting = [
        ev(
            "acc::meetings",
            "vc::m1",
            "Team meeting",
            "2026-08-10T10:00:00Z",
        ),
        ev(
            "shared-team",
            "ev-strange",
            "Team meeting",
            "2026-08-10T10:00:00Z",
        ),
    ];
    assert!(find_group_suggestions(&with_meeting, &[], &[]).is_empty());
}

#[test]
fn events_that_are_already_grouped_are_not_offered() {
    let member = |calendar_id: &str, event_id: &str| EventGroupMember {
        calendar_id: calendar_id.into(),
        event_id: event_id.into(),
        title: "Wochenplanung".into(),
        starts_at: "2026-08-10T08:00:00Z".into(),
        added_at: "2026-08-09T12:00:00Z".into(),
    };
    let group = EventGroup {
        id: "g1".into(),
        created_at: "2026-08-09T12:00:00Z".into(),
        updated_at: "2026-08-09T12:00:00Z".into(),
        members: vec![member("work", "ev-a"), member("private", "ev-b")],
    };
    assert!(find_group_suggestions(&day(), &[group], &[]).is_empty());
}

#[test]
fn a_declined_pair_is_never_asked_about_again() {
    let declines = [decline(("work", "ev-a"), ("private", "ev-b"))];
    assert!(find_group_suggestions(&day(), &[], &declines).is_empty());
}

#[test]
fn a_decline_counts_whichever_way_round_it_was_made() {
    let declines = [decline(("private", "ev-b"), ("work", "ev-a"))];
    assert!(find_group_suggestions(&day(), &[], &declines).is_empty());
}

#[test]
fn a_cleared_decline_stops_silencing_the_offer() {
    let mut taken_back = decline(("work", "ev-a"), ("private", "ev-b"));
    taken_back.cleared_at = Some("2026-08-09T13:00:00Z".into());
    assert!(!taken_back.is_declined());
    assert_eq!(find_group_suggestions(&day(), &[], &[taken_back]).len(), 1);
}

#[test]
fn each_event_is_offered_at_most_once() {
    let three = [
        ev("work", "ev-a", "Wochenplanung", "2026-08-10T08:00:00Z"),
        ev("private", "ev-b", "Wochenplanung", "2026-08-10T08:00:00Z"),
        ev("colleague", "ev-c", "Wochenplanung", "2026-08-10T08:00:00Z"),
    ];
    assert_eq!(find_group_suggestions(&three, &[], &[]).len(), 1);
}

#[test]
fn the_strict_match_holds_here_too() {
    let rows = [
        ev("work", "ev-a", "Wochenplanung", "2026-08-10T08:00:00Z"),
        ev("work", "ev-dup", "Wochenplanung", "2026-08-10T08:00:00Z"),
        ev(
            "private",
            "ev-late",
            "Wochenplanung",
            "2026-08-10T09:00:00Z",
        ),
    ];
    assert!(find_group_suggestions(&rows, &[], &[]).is_empty());
}

#[test]
fn the_meetings_suffix_is_the_one_the_host_mints() {
    assert!(is_meeting_calendar(&format!(
        "acc-1{MEETINGS_CALENDAR_SUFFIX}"
    )));
    assert!(!is_meeting_calendar("acc-1"));
    assert!(!is_meeting_calendar("meetings::acc-1"));
}
