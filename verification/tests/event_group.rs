use cal_core::event_group::{collapse, find_group, normalized_title, EventGroup, EventGroupMember};

const TITLES: [&str; 7] = [
    "Wochen  planung",
    "  Wochenplanung ",
    "",
    " \t\n",
    "STRASSE  und ÄRGER",
    "a\u{00A0}b\u{2003}c",
    "Zahnarzt",
];

#[test]
fn it_is_idempotent() {
    for title in TITLES {
        let once = normalized_title(title);
        assert_eq!(normalized_title(&once), once, "not idempotent: {once:?}");
    }
}

#[test]
fn a_title_is_trimmed_squeezed_and_lower_cased() {
    assert_eq!(normalized_title("Wochen  planung"), "wochen planung");
    assert_eq!(normalized_title("  Wochenplanung "), "wochenplanung");
    assert_eq!(normalized_title(" \t\n"), "");
    assert_eq!(normalized_title("STRASSE  und ÄRGER"), "strasse und ärger");
    assert_eq!(normalized_title("a\u{00A0}b\u{2003}c"), "a b c");
    assert_eq!(collapse(" A \n B "), "A B");
}

#[test]
fn the_last_group_that_holds_an_event_is_its_group() {
    let member = |calendar_id: &str, event_id: &str| EventGroupMember {
        calendar_id: calendar_id.into(),
        event_id: event_id.into(),
        title: "t".into(),
        starts_at: "2026-08-10T08:00:00Z".into(),
        added_at: "2026-08-09T12:00:00Z".into(),
    };
    let group = |id: &str, members: Vec<EventGroupMember>| EventGroup {
        id: id.into(),
        created_at: "2026-08-09T12:00:00Z".into(),
        updated_at: "2026-08-09T12:00:00Z".into(),
        members,
    };
    let groups = [
        group("g1", vec![member("work", "a")]),
        group("g2", vec![member("work", "b"), member("work", "a")]),
    ];
    assert_eq!(find_group(&groups, "work", "a"), Some(1));
    assert_eq!(find_group(&groups, "work", "b"), Some(1));
    assert_eq!(find_group(&groups, "private", "a"), None);
    assert!(groups[1].has_member("work", "a"));
    assert!(!groups[1].has_member("a", "work"));
}

#[test]
fn padding_and_the_width_and_kind_of_gaps_do_not_count() {
    let want = normalized_title("Große Runde");
    for title in [
        "  Große Runde",
        "Große Runde\t\n",
        "Große \u{2003}\u{a0} Runde",
        "Große\nRunde",
        "\u{3000}Große\u{1680}\r\nRunde ",
    ] {
        assert_eq!(normalized_title(title), want, "{title:?}");
    }
    assert_ne!(normalized_title("GroßeRunde"), want);
    assert!(want.split(' ').all(|w| !w.is_empty() && !w.contains(char::is_whitespace)));
}
