use cal_core::attendee::{
    guard_create, guard_update, normalize_address, organized_elsewhere, parse,
    people_from_read, same_address, same_invitees, without_organizer, ReadAttendee,
};
use cal_core::civil::Instant;
use cal_core::{AttendeeStatus, Event, NewEvent};

fn morning() -> Instant {
    Instant::from_timestamp(1_791_270_000, 0).unwrap()
}

#[test]
fn bare_email_has_no_display_name() {
    assert_eq!(
        parse("alice@example.com"),
        (None, "alice@example.com".into())
    );
}

#[test]
fn name_and_angle_bracket_email_split() {
    assert_eq!(
        parse("Alice Smith <alice@example.com>"),
        (Some("Alice Smith".into()), "alice@example.com".into())
    );
}

#[test]
fn surrounding_and_inner_whitespace_trimmed() {
    assert_eq!(
        parse("  Bob   <  bob@example.com  > "),
        (Some("Bob".into()), "bob@example.com".into())
    );
}

#[test]
fn quoted_display_name_is_dequoted() {
    assert_eq!(
        parse("\"Doe, John\" <john@example.com>"),
        (Some("Doe, John".into()), "john@example.com".into())
    );
}

#[test]
fn angle_brackets_without_a_name() {
    assert_eq!(
        parse("<just@brackets.com>"),
        (None, "just@brackets.com".into())
    );
}

#[test]
fn empty_angle_brackets_fall_back_to_whole_entry() {
    assert_eq!(parse("weird <>"), (None, "weird <>".into()));
}

fn row(email: &str, is_organizer: bool) -> ReadAttendee {
    ReadAttendee {
        email: email.into(),
        name: None,
        status: AttendeeStatus::Accepted,
        is_organizer,
    }
}

fn event(organizer: Option<&str>, attendees: &[&str]) -> Event {
    let at = morning();
    Event {
        id: "ev".into(),
        calendar_id: "cal".into(),
        title: "Standup".into(),
        description: None,
        location: None,
        start: at,
        end: at,
        all_day: false,
        recurrence: None,
        color_label: None,
        color_hex: None,
        reminders: Vec::new(),
        sound: None,
        attendees: attendees.iter().map(|a| a.to_string()).collect(),
        send_invitations: true,
        truncate_tail_overrides: false,
        keep_attendees: false,
        keep_fields: Vec::new(),
        clear_attendees: false,
        created_at: at,
        updated_at: at,
        etag: None,
        organizer: organizer.map(str::to_string),
        organized_elsewhere: false,
        attendee_responses: Vec::new(),
        cancelled: false,
        scheduling_silenced: false,
    }
}

#[test]
fn an_address_is_compared_in_one_spelling() {
    assert_eq!(
        normalize_address("  MailTo:Boss@Example.COM "),
        "boss@example.com"
    );
    assert_eq!(normalize_address(" bob@example.com "), "bob@example.com");
    assert!(same_address("mailto:A@x", "a@x"));
    assert!(!same_address("", ""), "an empty address names nobody");
}

#[test]
fn format_is_the_inverse_of_parse() {
    assert_eq!(cal_core::attendee::format(Some(" Alice "), "a@x"), "Alice <a@x>");
    assert_eq!(cal_core::attendee::format(Some("a@x"), "a@x"), "a@x");
    assert_eq!(cal_core::attendee::format(None, "a@x"), "a@x");
    assert_eq!(
        parse(&cal_core::attendee::format(Some("Alice"), "a@x")),
        (Some("Alice".into()), "a@x".into())
    );
}

#[test]
fn an_organizer_alone_leaves_no_invitees() {
    let people = people_from_read(Some("toni@x".into()), Some(true), &[row("toni@x", true)]);
    assert!(people.attendees.is_empty());
    assert!(people.attendee_responses.is_empty());
    assert_eq!(people.organizer.as_deref(), Some("toni@x"));
    assert!(!people.organized_elsewhere);
}

#[test]
fn the_organizer_row_is_found_by_flag_or_by_address() {
    let by_flag = people_from_read(
        Some("/o=Org/cn=boss".into()),
        None,
        &[row("boss@x", true), row("bob@x", false)],
    );
    assert_eq!(by_flag.attendees, ["bob@x"]);
    assert_eq!(by_flag.organizer.as_deref(), Some("/o=Org/cn=boss"));
    let by_address = people_from_read(
        Some("mailto:Boss@X".into()),
        None,
        &[row("boss@x", false), row("bob@x", false)],
    );
    assert_eq!(by_address.attendees, ["bob@x"]);
}

#[test]
fn nothing_is_guessed() {
    let unknown = people_from_read(None, None, &[row("a@x", false), row("b@x", false)]);
    assert_eq!(unknown.attendees, ["a@x", "b@x"]);
    assert!(
        !unknown.organized_elsewhere,
        "no organizer: the account's own"
    );
    let absent = people_from_read(Some("c@x".into()), None, &[row("a@x", false)]);
    assert_eq!(absent.attendees, ["a@x"]);
}

#[test]
fn one_flagged_row_names_a_missing_organizer() {
    let one = people_from_read(None, None, &[row("boss@x", true), row("bob@x", false)]);
    assert_eq!(one.organizer.as_deref(), Some("boss@x"));
    assert_eq!(one.attendees, ["bob@x"]);
    let two = people_from_read(
        None,
        None,
        &[
            row("a@x", true),
            row("b@x", true),
            row("", false),
            row("c@x", false),
        ],
    );
    assert_eq!(two.organizer, None, "two flags name nobody");
    assert_eq!(
        two.attendees,
        ["c@x"],
        "flagged and empty rows go, order stays"
    );
    assert_eq!(two.attendee_responses.len(), 1);
}

#[test]
fn only_a_confirmed_organizer_is_the_accounts() {
    assert!(!organized_elsewhere(Some("me@x"), Some(true)));
    assert!(organized_elsewhere(Some("boss@x"), Some(false)));
    assert!(organized_elsewhere(Some("boss@x"), None));
    assert!(!organized_elsewhere(None, None));
    assert!(!organized_elsewhere(Some("  "), None));
    assert!(organized_elsewhere(None, Some(false)));
    assert!(!organized_elsewhere(None, Some(true)));
    let unnamed = people_from_read(
        None,
        Some(false),
        &[row("a@x", true), row("b@x", true), row("c@x", false)],
    );
    assert_eq!(unnamed.organizer, None);
    assert!(unnamed.organized_elsewhere);
}

#[test]
fn the_update_guard_drops_the_organizer_and_the_send_nobody_needs() {
    let mut alone = event(Some("toni@x"), &["Toni <TONI@x>"]);
    guard_update(&mut alone, None);
    assert!(alone.attendees.is_empty());
    assert!(!alone.send_invitations, "nobody else to notify");

    let mut meeting = event(Some("toni@x"), &["Toni <toni@x>", "bob@x"]);
    guard_update(&mut meeting, None);
    assert_eq!(meeting.attendees, ["bob@x"]);
    assert!(meeting.send_invitations);

    let mut invitation = event(Some("boss@x"), &["me@x", "bob@x"]);
    invitation.organized_elsewhere = true;
    guard_update(&mut invitation, None);
    assert!(!invitation.send_invitations, "only the organizer notifies");
}

#[test]
fn the_update_guard_keeps_an_unchanged_list() {
    let read = event(Some("toni@x"), &["Toni <toni@x>", "Bob <bob@x>", "carol@x"]);
    let mut same = event(Some("toni@x"), &["CAROL@x", "bob@x"]);
    guard_update(&mut same, Some(&read));
    assert!(same.keep_attendees);

    let mut changed = event(Some("toni@x"), &["bob@x"]);
    guard_update(&mut changed, Some(&read));
    assert!(!changed.keep_attendees, "carol was removed");

    let mut unknown = event(Some("toni@x"), &["bob@x"]);
    guard_update(&mut unknown, None);
    assert!(!unknown.keep_attendees, "nothing to compare with: write");
}

#[test]
fn removing_the_last_invitee_clears_the_list() {
    let read = event(Some("toni@x"), &["Toni <toni@x>", "bob@x"]);
    let mut removed = event(Some("toni@x"), &[]);
    guard_update(&mut removed, Some(&read));
    assert!(removed.clear_attendees);
    assert!(!removed.keep_attendees);
    assert!(removed.send_invitations, "bob may get a cancellation");

    let mut elsewhere = event(Some("boss@x"), &[]);
    elsewhere.organized_elsewhere = true;
    guard_update(&mut elsewhere, Some(&event(Some("boss@x"), &["bob@x"])));
    assert!(elsewhere.clear_attendees);
    assert!(!elsewhere.send_invitations, "only the organizer notifies");

    let mut alone = event(Some("toni@x"), &[]);
    guard_update(&mut alone, Some(&event(Some("toni@x"), &["Toni <toni@x>"])));
    assert!(!alone.clear_attendees, "the organizer was never a guest");
    assert!(alone.keep_attendees);
    assert!(!alone.send_invitations);

    let mut unknown = event(Some("toni@x"), &[]);
    guard_update(&mut unknown, None);
    assert!(!unknown.clear_attendees, "nothing read: nothing cleared");
    assert!(!unknown.send_invitations);
}

#[test]
fn the_create_guard_drops_the_source_organizer() {
    let at = morning();
    let mut new = NewEvent {
        title: "Standup".into(),
        description: None,
        location: None,
        start: at,
        end: at,
        all_day: false,
        recurrence: None,
        color_label: None,
        color_hex: None,
        reminders: Vec::new(),
        sound: None,
        attendees: vec!["Toni <toni@x>".into()],
        send_invitations: true,
        organizer: Some("mailto:toni@x".into()),
        organized_elsewhere: false,
    };
    guard_create(&mut new);
    assert!(new.attendees.is_empty());
    assert!(!new.send_invitations);

    new.attendees = vec!["bob@x".into()];
    new.send_invitations = true;
    new.organized_elsewhere = true;
    guard_create(&mut new);
    assert_eq!(new.attendees, ["bob@x"]);
    assert!(
        !new.send_invitations,
        "a copy of someone else's meeting notifies nobody"
    );
}


#[test]
fn parsing_gives_back_what_formatting_wrote() {
    assert_eq!(
        parse(&cal_core::attendee::format(Some("Alice Smith"), "alice@example.com")),
        (Some("Alice Smith".into()), "alice@example.com".into())
    );
    assert_eq!(parse(&cal_core::attendee::format(None, "a@x")), (None, "a@x".into()));
    assert_eq!(cal_core::attendee::format(Some("  "), "a@x"), "a@x");
}

#[test]
fn the_organizer_is_taken_off_the_list() {
    let list: Vec<String> = vec!["Toni <TONI@x>".into(), "bob@x".into()];
    assert_eq!(without_organizer(&list, Some("mailto:toni@x")), ["bob@x"]);
    assert_eq!(without_organizer(&list, None), ["Toni <TONI@x>", "bob@x"]);
    assert_eq!(without_organizer(&list, Some(" ")), ["Toni <TONI@x>", "bob@x"]);
}

#[test]
fn invitees_are_compared_without_order_spelling_or_number() {
    let a: Vec<String> = vec!["Bob <bob@x>".into(), "carol@x".into()];
    let b: Vec<String> = vec!["CAROL@x".into(), "mailto:bob@x".into()];
    assert!(same_invitees(&a, &b));
    assert!(!same_invitees(&a, &b[..1]));
    assert!(same_invitees(&[], &[]));
}

#[test]
fn an_address_is_lower_cased_without_its_scheme() {
    assert_eq!(normalize_address("MAILTO: Ä@X"), "ä@x");
    assert_eq!(normalize_address("mail:a@x"), "mail:a@x");
}

#[test]
fn guarding_an_update_twice_is_guarding_it_once() {
    let read = event(Some("toni@x"), &["Toni <toni@x>", "bob@x"]);
    let mut once = event(Some("toni@x"), &["Toni <toni@x>", "carol@x"]);
    guard_update(&mut once, Some(&read));
    let mut twice = once.clone();
    guard_update(&mut twice, Some(&read));
    assert_eq!(once, twice);
}
