use cal_core::{collapse_event_groups, EventGroup, EventGroupMember, FoldableEvent};

fn row(calendar_id: &str, series_id: &str, start: &str) -> FoldableEvent {
    FoldableEvent {
        calendar_id: calendar_id.into(),
        series_id: series_id.into(),
        start: Some(start.into()),
        all_day: false,
        actionable: None,
    }
}

fn group(id: &str, members: &[(&str, &str)]) -> EventGroup {
    EventGroup {
        id: id.into(),
        created_at: "2026-08-09T12:00:00Z".into(),
        updated_at: "2026-08-09T12:00:00Z".into(),
        members: members
            .iter()
            .map(|(cal, ev)| EventGroupMember {
                calendar_id: (*cal).into(),
                event_id: (*ev).into(),
                title: "Wochenplanung".into(),
                starts_at: "2026-08-10T08:00:00Z".into(),
                added_at: "2026-08-09T12:00:00Z".into(),
            })
            .collect(),
    }
}

#[test]
fn a_group_becomes_one_row_that_names_its_calendars() {
    let events = [
        row("work", "ev-a", "2026-08-10T08:00:00Z"),
        row("private", "ev-b", "2026-08-10T08:00:00Z"),
    ];
    let folded = collapse_event_groups(
        &events,
        &[group("g1", &[("work", "ev-a"), ("private", "ev-b")])],
    );
    assert_eq!(folded.len(), 1);
    assert_eq!(folded[0].event, 0);
    assert_eq!(folded[0].group_id.as_deref(), Some("g1"));
    assert_eq!(folded[0].other_members, 1);
    assert_eq!(folded[0].calendar_ids, vec!["work", "private"]);
    assert!(!folded[0].diverged);
}

#[test]
fn the_count_is_the_groups_and_not_the_windows() {
    let events = [row("work", "ev-a", "2026-08-10T08:00:00Z")];
    let folded = collapse_event_groups(
        &events,
        &[group(
            "g1",
            &[("work", "ev-a"), ("private", "ev-b"), ("coll", "ev-c")],
        )],
    );
    assert_eq!(folded[0].other_members, 2);
    assert_eq!(folded[0].calendar_ids, vec!["work", "private", "coll"]);
}

#[test]
fn an_actionable_member_stands_for_the_group_even_when_a_meeting_came_first() {
    let events = [
        row("acc::meetings", "vc::1", "2026-08-10T08:00:00Z"),
        row("work", "ev-a", "2026-08-10T08:00:00Z"),
    ];
    let folded = collapse_event_groups(
        &events,
        &[group("g1", &[("acc::meetings", "vc::1"), ("work", "ev-a")])],
    );
    assert_eq!(folded.len(), 1);
    assert_eq!(
        folded[0].event, 1,
        "the appointment stands, not the meeting"
    );
    assert_eq!(folded[0].calendar_ids[0], "work");
}

#[test]
fn a_meeting_alone_still_stands_for_its_group() {
    let events = [row("acc::meetings", "vc::1", "2026-08-10T08:00:00Z")];
    let folded = collapse_event_groups(
        &events,
        &[group("g1", &[("acc::meetings", "vc::1"), ("work", "ev-a")])],
    );
    assert_eq!(folded.len(), 1);
    assert_eq!(folded[0].event, 0);
}

#[test]
fn a_diverged_group_keeps_every_copy_visible() {
    let events = [
        row("work", "ev-a", "2026-08-10T08:00:00Z"),
        row("private", "ev-b", "2026-08-10T10:00:00Z"),
    ];
    let folded = collapse_event_groups(
        &events,
        &[group("g1", &[("work", "ev-a"), ("private", "ev-b")])],
    );
    assert_eq!(folded.len(), 2);
    assert!(folded.iter().all(|r| r.diverged));
    assert_eq!(folded[0].event, 0);
    assert_eq!(folded[1].event, 1);
}

#[test]
fn two_spellings_of_one_instant_do_not_read_as_a_divergence() {
    let events = [
        row("work", "ev-a", "2026-08-10T08:00:00.000Z"),
        row("private", "ev-b", "2026-08-10T08:00:00Z"),
    ];
    let folded = collapse_event_groups(
        &events,
        &[group("g1", &[("work", "ev-a"), ("private", "ev-b")])],
    );
    assert_eq!(folded.len(), 1);
    assert!(!folded[0].diverged);
}

#[test]
fn the_days_order_survives_the_fold() {
    let events = [
        row("work", "ev-early", "2026-08-10T07:00:00Z"),
        row("work", "ev-a", "2026-08-10T08:00:00Z"),
        row("private", "ev-b", "2026-08-10T08:00:00Z"),
        row("work", "ev-late", "2026-08-10T09:00:00Z"),
    ];
    let folded = collapse_event_groups(
        &events,
        &[group("g1", &[("work", "ev-a"), ("private", "ev-b")])],
    );
    assert_eq!(
        folded.iter().map(|r| r.event).collect::<Vec<_>>(),
        vec![0, 1, 3],
    );
}

#[test]
fn without_groups_every_row_stands_for_itself() {
    let events = [
        row("work", "ev-a", "2026-08-10T08:00:00Z"),
        row("private", "ev-b", "2026-08-10T09:00:00Z"),
    ];
    let folded = collapse_event_groups(&events, &[]);
    assert_eq!(folded.len(), 2);
    assert!(folded
        .iter()
        .all(|r| r.group_id.is_none() && r.other_members == 0 && !r.diverged));
}

#[test]
fn all_day_copies_agree_on_the_day() {
    let mut a = row("work", "ev-a", "2026-08-10");
    let mut b = row("private", "ev-b", "2026-08-10T00:00:00Z");
    a.all_day = true;
    b.all_day = true;
    let folded = collapse_event_groups(
        &[a, b],
        &[group("g1", &[("work", "ev-a"), ("private", "ev-b")])],
    );
    assert_eq!(folded.len(), 1);
    assert!(!folded[0].diverged);
}

#[test]
fn a_row_marked_actionable_stands_whatever_its_calendar() {
    let mut meeting = row("acc::meetings", "vc::1", "2026-08-10T08:00:00Z");
    meeting.actionable = Some(true);
    let mut entry = row("work", "ev-a", "2026-08-10T08:00:00Z");
    entry.actionable = Some(false);
    let folded = collapse_event_groups(
        &[entry, meeting],
        &[group("g1", &[("acc::meetings", "vc::1"), ("work", "ev-a")])],
    );
    assert_eq!(folded.len(), 1);
    assert_eq!(folded[0].event, 1);
}

#[test]
fn an_unreadable_start_is_no_instant() {
    let events = [
        row("work", "ev-a", "1970-01-01T00:00:00.005Z"),
        row("private", "ev-b", "5"),
    ];
    let groups = [group("g1", &[("work", "ev-a"), ("private", "ev-b")])];
    let folded = collapse_event_groups(&events, &groups);
    assert_eq!(folded.len(), 2);
    assert!(folded.iter().all(|r| r.diverged));
    let alike = [row("work", "ev-a", "soon"), row("private", "ev-b", "soon")];
    assert_eq!(collapse_event_groups(&alike, &groups).len(), 1);
}
