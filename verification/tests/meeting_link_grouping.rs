use cal_core::meeting_link_grouping::{fold_url, UrlParts};
use cal_core::{
    find_meeting_link_pairs, normalize_join_url, EventGroup, EventGroupMember, LinkableEvent,
    MeetingLinkPair, SuggestionDecline,
};

const LINKS: [&str; 11] = [
    "https://m\u{fc}nchen.example.com/meet/x",
    "https://example.webex.com/meet/j.doe",
    "HTTPS://Example.Webex.com/meet/j.doe/",
    "https://example.webex.com:443/meet/j.doe",
    "https://example.webex.com:8443/meet/j.doe",
    "http://example.com:80/a/b/",
    "https://example.zoom.us/j/123?pwd=abc",
    "https://example.zoom.us/j/123?pwd=abc#frag",
    "https://teams.microsoft.com/l/meetup-join/19%3ameeting_abc",
    "https://meet.google.com/abc-defg-hij",
    "https://user:pw@meet.jit.si/room//",
];

#[test]
fn folding_a_real_join_url_twice_changes_nothing() {
    for url in LINKS {
        let once = normalize_join_url(url);
        assert!(once.starts_with("http"), "{once}");
        assert_eq!(normalize_join_url(&once), once, "not stable: {once:?}");
    }
}

#[test]
fn one_link_in_two_spellings_folds_to_one() {
    assert_eq!(
        normalize_join_url("HTTPS://Example.Webex.com/meet/j.doe/"),
        "https://example.webex.com/meet/j.doe"
    );
    assert_eq!(
        normalize_join_url("https://example.webex.com:443/meet/j.doe#top"),
        "https://example.webex.com/meet/j.doe"
    );
    assert_eq!(
        normalize_join_url("https://m\u{fc}nchen.example.com/meet/x"),
        "https://xn--mnchen-3ya.example.com/meet/x"
    );
    assert_eq!(
        normalize_join_url("mailto:someone@example.com"),
        "mailto://someone@example.com"
    );
}

#[test]
fn the_parts_of_a_url_are_put_together_again() {
    let parts = UrlParts {
        scheme: "https".into(),
        host: Some("example.com".into()),
        port: Some(8443),
        path: "/a/".into(),
        query: Some("q=1".into()),
    };
    assert_eq!(fold_url(&parts), "https://example.com:8443/a?q=1");
}

const JOIN: &str = "https://example.webex.com/meet/j.doe";

fn entry(calendar_id: &str, series_id: &str, location: Option<&str>) -> LinkableEvent {
    LinkableEvent {
        calendar_id: calendar_id.into(),
        series_id: series_id.into(),
        location: location.map(str::to_string),
        description: None,
        recurs: false,
    }
}

fn pair() -> Vec<LinkableEvent> {
    vec![
        entry("work", "ev-a", Some(JOIN)),
        entry("acc::meetings", "vc::1", Some("https://EXAMPLE.webex.com/meet/j.doe/")),
    ]
}

#[test]
fn a_meeting_and_its_entry_are_paired_by_their_link() {
    assert_eq!(
        find_meeting_link_pairs(&pair(), &[], &[]),
        vec![MeetingLinkPair {
            meeting: 1,
            event: 0,
            join_url: JOIN.into(),
        }]
    );
}

#[test]
fn two_entries_alone_are_no_pair() {
    let rows = [entry("work", "a", Some(JOIN)), entry("private", "b", Some(JOIN))];
    assert!(find_meeting_link_pairs(&rows, &[], &[]).is_empty());
}

#[test]
fn a_declined_pair_is_not_offered() {
    let declined = SuggestionDecline::new(
        ("acc::meetings", "vc::1"),
        ("work", "ev-a"),
        "2026-08-09T12:00:00Z".into(),
    );
    assert!(find_meeting_link_pairs(&pair(), &[], &[declined]).is_empty());
}

#[test]
fn a_pair_that_is_grouped_already_is_not_offered() {
    let member = |calendar_id: &str, event_id: &str| EventGroupMember {
        calendar_id: calendar_id.into(),
        event_id: event_id.into(),
        title: "t".into(),
        starts_at: "2026-08-10T08:00:00Z".into(),
        added_at: "2026-08-09T12:00:00Z".into(),
    };
    let group = EventGroup {
        id: "g1".into(),
        created_at: "2026-08-09T12:00:00Z".into(),
        updated_at: "2026-08-09T12:00:00Z".into(),
        members: vec![member("work", "ev-a"), member("acc::meetings", "vc::1")],
    };
    assert!(find_meeting_link_pairs(&pair(), &[group], &[]).is_empty());
}

#[test]
fn ids_that_would_run_together_are_two_appointments() {
    let meeting = pair().into_iter().find(|r| r.calendar_id == "acc::meetings").unwrap();
    let rows = [
        meeting.clone(),
        entry("a\nb", "c", Some(JOIN)),
        entry("a", "b\nc", Some(JOIN)),
    ];
    assert!(find_meeting_link_pairs(&rows, &[], &[]).is_empty());
    let group = EventGroup {
        id: "alone:a\nb".into(),
        created_at: "2026-08-09T12:00:00Z".into(),
        updated_at: "2026-08-09T12:00:00Z".into(),
        members: vec![EventGroupMember {
            calendar_id: "work".into(),
            event_id: "x".into(),
            title: "t".into(),
            starts_at: "2026-08-10T08:00:00Z".into(),
            added_at: "2026-08-09T12:00:00Z".into(),
        }],
    };
    let rows = [meeting, entry("work", "x", Some(JOIN)), entry("a", "b", Some(JOIN))];
    assert!(find_meeting_link_pairs(&rows, &[group], &[]).is_empty());
}

#[test]
fn a_pair_names_the_first_row_of_each_kind() {
    let mut rows = pair().to_vec();
    rows.extend(pair());
    let found = find_meeting_link_pairs(&rows, &[], &[]);
    assert_eq!(found, find_meeting_link_pairs(&pair(), &[], &[]));
    assert_eq!(found.len(), 1);
}
