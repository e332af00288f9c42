use cal_core::{
    join_url_of, meeting_join_url, without_duplicate_meetings, MeetingFilterEvent,
};

const JOIN: &str = "https://example.webex.com/meet/j.doe";
const OTHER: &str = "https://example.webex.com/meet/a.other";

fn row(calendar_id: &str, location: Option<&str>) -> MeetingFilterEvent {
    MeetingFilterEvent {
        calendar_id: calendar_id.into(),
        location: location.map(str::to_string),
        description: None,
        grouped: false,
    }
}

#[test]
fn a_meeting_whose_entry_is_in_view_is_dropped() {
    let rows = [
        row("work", Some(JOIN)),
        row("acc::meetings", Some(JOIN)),
        row("work", None),
    ];
    assert_eq!(without_duplicate_meetings(&rows), vec![0, 2]);
}

#[test]
fn a_meeting_with_no_entry_in_view_stays() {
    let rows = [row("work", Some(OTHER)), row("acc::meetings", Some(JOIN))];
    assert_eq!(without_duplicate_meetings(&rows), vec![0, 1]);
}

#[test]
fn a_grouped_meeting_is_never_dropped() {
    let mut meeting = row("acc::meetings", Some(JOIN));
    meeting.grouped = true;
    let rows = [row("work", Some(JOIN)), meeting];
    assert_eq!(without_duplicate_meetings(&rows), vec![0, 1]);
}

#[test]
fn two_real_events_sharing_a_link_both_stay() {
    let rows = [row("work", Some(JOIN)), row("private", Some(JOIN))];
    assert_eq!(without_duplicate_meetings(&rows), vec![0, 1]);
}

#[test]
fn one_meeting_row_never_suppresses_another() {
    let rows = [
        row("acc-a::meetings", Some(JOIN)),
        row("acc-b::meetings", Some(JOIN)),
    ];
    assert_eq!(without_duplicate_meetings(&rows), vec![0, 1]);
}

#[test]
fn a_window_with_no_links_at_all_is_untouched() {
    let rows = [row("work", None), row("acc::meetings", None)];
    assert_eq!(without_duplicate_meetings(&rows), vec![0, 1]);
}

#[test]
fn a_rows_link_is_the_one_its_fields_hold() {
    assert_eq!(meeting_join_url(&row("work", Some(JOIN))).as_deref(), Some(JOIN));
    assert_eq!(meeting_join_url(&row("work", Some("Raum 3"))), None);
    assert_eq!(join_url_of(None, Some(OTHER)).as_deref(), Some(OTHER));
    assert_eq!(join_url_of(Some(JOIN), Some(OTHER)).as_deref(), Some(JOIN));
    assert_eq!(join_url_of(None, None), None);
}
